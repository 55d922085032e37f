use symgen::util::modmeta::record::{
    check_flags, read_service_id, MetaError, RecordHeader, KIND_HEADER,
};
use symgen::util::modmeta::{check_agreement, parse_library, Import, MetaFile};
use symgen::cmd::modmeta::{
    check_agreement as check_libraries, export_order, import_order, plan, run, Args, ModmetaError,
    Steps,
};
use symgen::cmd::modmeta::update::{update_json, update_text, JsonFault};
use symgen::util::modmeta::agreement::AgreementError;
use symgen::util::modmeta::record::{decode_virtual_slot, find_bound, read_cstr};
use symgen::util::modmeta::{Export, HookTarget};
use symgen::util::objfile::ImageArch;

fn metadata(abi_version: u32, service_id: &str) -> MetaFile {
    MetaFile {
        format: "elf".into(),
        arch: "aarch64".into(),
        abi_version,
        imports: vec![Import {
            service_id: service_id.into(),
            major: 1,
            min_minor: 0,
            optional: false,
        }],
        exports: Vec::new(),
        hooks: Vec::new(),
    }
}

#[test]
fn rejects_missing_metadata_section() {
    let error = parse_library(b"not an object").unwrap_err();
    assert_eq!(error, MetaError::BadObject);
}

#[test]
fn rejects_invalid_utf8_strings_and_unknown_flags() {
    let mut service_id = [0u8; 64];
    service_id[0] = 0xff;
    assert!(read_service_id(&service_id, 8).is_err());

    let header = RecordHeader { size: 8, kind: KIND_HEADER, flags: 0x80 };
    assert!(check_flags(&header, 0, 0).is_err());
}

#[test]
fn verifies_cross_library_agreement() {
    let matching = vec![
        metadata(1, "dev.example.service"),
        metadata(1, "dev.example.service"),
    ];
    check_agreement(&matching).unwrap();

    let mismatched = vec![
        metadata(1, "dev.example.service"),
        metadata(2, "dev.example.service"),
    ];
    assert!(check_agreement(&mismatched).is_err());
}

struct Section {
    name: &'static str,
    kind: u32,
    flags: u64,
    address: u64,
    data: Vec<u8>,
}

struct Symbol {
    name: &'static str,
    /// Binding in the upper half, type in the lower one.
    info: u8,
    visibility: u8,
    /// One-based index among the given sections; 0 is undefined.
    section: u16,
    value: u64,
}

fn pad(out: &mut Vec<u8>, align: usize) {
    while out.len() % align != 0 {
        out.push(0);
    }
}

fn add_string(table: &mut Vec<u8>, text: &str) -> u32 {
    let offset = table.len() as u32;
    table.extend_from_slice(text.as_bytes());
    table.push(0);
    offset
}

fn section_header(fields: [u64; 10]) -> Vec<u8> {
    let mut out = Vec::new();
    for (i, value) in fields.iter().enumerate() {
        if matches!(i, 0 | 1 | 6 | 7) {
            out.extend_from_slice(&(*value as u32).to_le_bytes());
        } else {
            out.extend_from_slice(&value.to_le_bytes());
        }
    }
    out
}

/// A little-endian ELF64 file: the given sections, then `.symtab`, `.strtab` and `.shstrtab`.
fn elf(kind: u16, machine: u16, sections: &[Section], symbols: &[Symbol]) -> Vec<u8> {
    let mut out = vec![0u8; 64];
    let mut names = vec![0u8];
    let mut headers = section_header([0; 10]);
    for section in sections {
        pad(&mut out, 16);
        let name = add_string(&mut names, section.name);
        headers.extend(section_header([
            name.into(),
            section.kind.into(),
            section.flags,
            section.address,
            out.len() as u64,
            section.data.len() as u64,
            0,
            0,
            8,
            0,
        ]));
        out.extend_from_slice(&section.data);
    }

    let mut strings = vec![0u8];
    let mut table = vec![0u8; 24];
    let mut locals = 1u64;
    for symbol in symbols {
        table.extend_from_slice(&add_string(&mut strings, symbol.name).to_le_bytes());
        table.push(symbol.info);
        table.push(symbol.visibility);
        table.extend_from_slice(&symbol.section.to_le_bytes());
        table.extend_from_slice(&symbol.value.to_le_bytes());
        table.extend_from_slice(&0u64.to_le_bytes());
        if symbol.info >> 4 == 0 {
            locals += 1;
        }
    }
    let count = sections.len() as u64;
    pad(&mut out, 16);
    let name = add_string(&mut names, ".symtab");
    headers.extend(section_header([
        name.into(),
        2,
        0,
        0,
        out.len() as u64,
        table.len() as u64,
        count + 2,
        locals,
        8,
        24,
    ]));
    out.extend_from_slice(&table);
    let name = add_string(&mut names, ".strtab");
    headers.extend(section_header([
        name.into(),
        3,
        0,
        0,
        out.len() as u64,
        strings.len() as u64,
        0,
        0,
        1,
        0,
    ]));
    out.extend_from_slice(&strings);
    let name = add_string(&mut names, ".shstrtab");
    headers.extend(section_header([
        name.into(),
        3,
        0,
        0,
        out.len() as u64,
        names.len() as u64,
        0,
        0,
        1,
        0,
    ]));
    out.extend_from_slice(&names);
    pad(&mut out, 8);
    let table_at = out.len() as u64;
    out.extend_from_slice(&headers);

    out[..16].copy_from_slice(b"\x7fELF\x02\x01\x01\0\0\0\0\0\0\0\0\0");
    out[16..18].copy_from_slice(&kind.to_le_bytes());
    out[18..20].copy_from_slice(&machine.to_le_bytes());
    out[20..24].copy_from_slice(&1u32.to_le_bytes());
    out[40..48].copy_from_slice(&table_at.to_le_bytes());
    out[52..54].copy_from_slice(&64u16.to_le_bytes());
    out[54..56].copy_from_slice(&56u16.to_le_bytes());
    out[58..60].copy_from_slice(&64u16.to_le_bytes());
    out[60..62].copy_from_slice(&(count as u16 + 4).to_le_bytes());
    out[62..64].copy_from_slice(&(count as u16 + 3).to_le_bytes());
    out
}

fn metadata_record(kind: u8, flags: u8, fields: &[u8]) -> Vec<u8> {
    let mut body = fields.to_vec();
    while (body.len() + 4) % 8 != 0 {
        body.push(0);
    }
    let mut out = ((body.len() + 4) as u16).to_le_bytes().to_vec();
    out.push(kind);
    out.push(flags);
    out.extend(body);
    out
}

fn header_record(abi: u32) -> Vec<u8> {
    metadata_record(1, 0, &abi.to_le_bytes())
}

fn hook_name_record(name: &str) -> Vec<u8> {
    let mut fields = vec![0u8; 12];
    fields.extend_from_slice(name.as_bytes());
    fields.push(0);
    metadata_record(6, 0, &fields)
}

const META_ADDRESS: u64 = 0x4000;

/// A mod library with the given metadata.
fn mod_library(records: &[Vec<u8>]) -> Vec<u8> {
    let data = records.concat();
    elf(
        3,
        183,
        &[Section { name: "modmeta", kind: 1, flags: 3, address: META_ADDRESS, data }],
        &[],
    )
}

fn service_record(kind: u8, flags: u8, major: u16, minor: u16, id: &str) -> Vec<u8> {
    let mut fields = Vec::new();
    fields.extend_from_slice(&major.to_le_bytes());
    fields.extend_from_slice(&minor.to_le_bytes());
    fields.extend_from_slice(&[0; 8]);
    fields.extend_from_slice(id.as_bytes());
    fields.resize(76, 0);
    metadata_record(kind, flags, &fields)
}

fn member_record(word0: u64, word1: u64, vtable: &str, display: &str) -> Vec<u8> {
    let mut fields = vec![0u8; 4];
    fields.extend_from_slice(&word0.to_le_bytes());
    fields.extend_from_slice(&word1.to_le_bytes());
    fields.extend_from_slice(&[0; 8]);
    fields.extend_from_slice(format!("{vtable}\0{display}\0").as_bytes());
    metadata_record(5, 0, &fields)
}

#[test]
fn records_are_read() {
    let library = mod_library(&[
        header_record(3),
        vec![0; 8],
        service_record(2, 1, 2, 5, "dev.example.log"),
        service_record(3, 1, 1, 4, "dev.example.mod"),
        hook_name_record("game_func"),
        member_record(16, 1, "_ZTV4Game", "Game::tick"),
        metadata_record(4, 0, &[0; 20]),
        metadata_record(99, 7, &[1, 2, 3, 4]),
        vec![0; 4],
    ]);
    let meta = parse_library(&library).unwrap();
    assert_eq!((meta.format.as_str(), meta.arch.as_str(), meta.abi_version), ("elf", "aarch64", 3));
    assert_eq!(meta.imports.len(), 1);
    let import = &meta.imports[0];
    assert_eq!(
        (import.service_id.as_str(), import.major, import.min_minor, import.optional),
        ("dev.example.log", 2, 5, true)
    );
    let export = &meta.exports[0];
    assert_eq!(
        (export.service_id.as_str(), export.major, export.minor, export.deferred),
        ("dev.example.mod", 1, 4, true)
    );
    assert_eq!(meta.hooks.len(), 3);
    assert!(matches!(&meta.hooks[0], HookTarget::Name { name } if name == "game_func"));
    assert!(matches!(
        &meta.hooks[1],
        HookTarget::Mem { vtable, display, symbol: None, virtual_slot: Some(16) }
            if vtable == "_ZTV4Game" && display == "Game::tick"
    ));
    assert!(matches!(&meta.hooks[2], HookTarget::Fn { symbol: None }));
}

/// Set the link, the info and the entry size of a section.
fn set_link(data: &mut [u8], section: usize, link: u32, entry: u64) {
    let table = u64::from_le_bytes(data[40..48].try_into().unwrap()) as usize;
    let at = table + 64 * section;
    data[at + 40..at + 44].copy_from_slice(&link.to_le_bytes());
    data[at + 56..at + 64].copy_from_slice(&entry.to_le_bytes());
}

#[test]
fn function_hooks_are_recovered_from_relocations() {
    let records = [header_record(1), metadata_record(4, 0, &[0; 20])].concat();
    let section = |name, kind, address, data| Section { name, kind, flags: 2, address, data };
    // The symbol of the relocation, at the target field of the hook.
    let mut symbols = vec![0u8; 24];
    symbols.extend_from_slice(&[1, 0, 0, 0, 0x12, 0, 0, 0]);
    symbols.resize(48, 0);
    let mut relocation = (META_ADDRESS + 16).to_le_bytes().to_vec();
    relocation.extend_from_slice(&((1u64 << 32) | 257).to_le_bytes());
    relocation.extend_from_slice(&[0; 8]);
    let mut library = elf(
        3,
        183,
        &[
            section("modmeta", 1, META_ADDRESS, records),
            section(".dynsym", 11, 0x1000, symbols),
            section(".dynstr", 3, 0x1100, b"\0game_func\0".to_vec()),
            section(".rela.dyn", 4, 0x1200, relocation),
        ],
        &[Symbol { name: "game_func", info: 0x12, visibility: 0, section: 0, value: 0 }],
    );
    set_link(&mut library, 2, 3, 24);
    set_link(&mut library, 4, 2, 24);
    let meta = parse_library(&library).unwrap();
    assert!(matches!(
        &meta.hooks[0],
        HookTarget::Fn { symbol: Some(symbol) } if symbol == "game_func"
    ));
}

fn meta_error(records: &[Vec<u8>]) -> MetaError {
    parse_library(&mod_library(records)).err().unwrap()
}

#[test]
fn metadata_errors() {
    let plain = elf(3, 183, &[], &[]);
    assert_eq!(parse_library(&plain).err(), Some(MetaError::NoSection));
    let header = header_record(1);
    assert_eq!(meta_error(&[]), MetaError::HeaderCount(0));
    assert_eq!(meta_error(&[header.clone(), header.clone()]), MetaError::HeaderCount(2));
    assert_eq!(meta_error(&[header.clone(), vec![1, 0]]), MetaError::Trailing(8));
    assert_eq!(meta_error(&[vec![12, 0, 1, 0, 0, 0, 0, 0]]), MetaError::BadSize(0, 12));
    assert_eq!(meta_error(&[vec![16, 0, 1, 0, 0, 0, 0, 0]]), MetaError::BadSize(0, 16));
    assert_eq!(
        meta_error(&[header.clone(), metadata_record(2, 3, &[0; 76])]),
        MetaError::BadFlags(8, 2, 2)
    );
    assert_eq!(
        meta_error(&[header.clone(), metadata_record(3, 0, &[0; 4])]),
        MetaError::Truncated(8)
    );
    assert_eq!(meta_error(&[service_record(2, 0, 1, 0, "")]), MetaError::EmptyId(0));
    assert_eq!(
        meta_error(&[service_record(2, 0, 1, 0, &"x".repeat(64))]),
        MetaError::UnterminatedId(0)
    );
    let mut id = service_record(3, 0, 1, 0, "ab");
    id[16] = 0xff;
    assert_eq!(meta_error(&[id]), MetaError::BadId(0));
    let mut name = hook_name_record("abcdefg");
    name[16] = 0xc0;
    assert_eq!(meta_error(&[name.clone()]), MetaError::BadString(0));
    name[16..24].copy_from_slice(b"abcdefgh");
    assert_eq!(meta_error(&[name]), MetaError::UnterminatedString(0));
    let mut extended = vec![16, 0, 0, 0];
    extended.resize(28, 0);
    assert_eq!(meta_error(&[metadata_record(7, 0, &extended)]), MetaError::BadPointerSize(0, 16));
}

#[test]
fn virtual_slots_follow_the_abi() {
    assert_eq!(decode_virtual_slot(false, ImageArch::X86_64, 17, 0), Some(16));
    assert_eq!(decode_virtual_slot(false, ImageArch::X86_64, 16, 0), None);
    assert_eq!(decode_virtual_slot(false, ImageArch::X86_64, 17, 8), None);
    assert_eq!(decode_virtual_slot(false, ImageArch::Aarch64, 24, 1), Some(24));
    assert_eq!(decode_virtual_slot(false, ImageArch::Aarch64, 24, 3), None);
    assert_eq!(decode_virtual_slot(true, ImageArch::X86_64, 17, 0), None);
}

#[test]
fn strings_and_binds_are_found() {
    assert_eq!(read_cstr(b"ab\0cd", 0), Ok(("ab".to_string(), 3)));
    assert_eq!(read_cstr(b"\0", 0), Ok((String::new(), 1)));
    assert_eq!(read_cstr(b"ab", 40), Err(MetaError::UnterminatedString(40)));
    let binds = [(8, "a".to_string()), (16, "b".to_string())];
    assert_eq!(find_bound(&binds, 16).as_deref(), Some("b"));
    assert_eq!(find_bound(&binds, 12), None);
}

fn modmeta_args(inputs: usize) -> Args {
    Args {
        inputs: (0..inputs).map(|i| format!("mod{i}.so")).collect(),
        check: false,
        out: None,
        update_json: None,
    }
}

#[test]
fn what_is_done_depends_on_the_options() {
    assert_eq!(plan(&modmeta_args(0)), None);
    let mut args = modmeta_args(1);
    assert_eq!(plan(&args), Some(Steps { check: false, update: false, dump: true }));
    args.check = true;
    assert_eq!(plan(&args), Some(Steps { check: true, update: false, dump: false }));
    args.check = false;
    args.update_json = Some("mod.json".to_string());
    assert_eq!(plan(&args), Some(Steps { check: true, update: true, dump: false }));
    args.out = Some("dump.json".to_string());
    assert_eq!(plan(&args), Some(Steps { check: true, update: true, dump: true }));
}

#[test]
fn libraries_are_verified() {
    let library = |abi| mod_library(&[header_record(abi)]);
    let outcome = |args: &Args, libraries: &[Vec<u8>]| {
        run(args, libraries).map(|(steps, files)| (steps.check, files.len()))
    };
    assert_eq!(outcome(&modmeta_args(0), &[]), Err(ModmetaError::NoInputs));
    assert_eq!(outcome(&modmeta_args(2), &[library(1), library(2)]), Ok((false, 2)));
    let mut args = modmeta_args(2);
    args.check = true;
    assert_eq!(outcome(&args, &[library(1), library(1)]), Ok((true, 2)));
    assert_eq!(
        outcome(&args, &[library(1), library(2)]),
        Err(ModmetaError::Agreement(AgreementError::AbiVersion(1)))
    );
    assert_eq!(
        outcome(&args, &[library(1), b"no library".to_vec()]),
        Err(ModmetaError::Library(1, MetaError::BadObject))
    );
}

#[test]
fn services_agree_as_sets() {
    let import = |id: &str| Import {
        service_id: id.to_string(),
        major: 1,
        min_minor: 0,
        optional: false,
    };
    let mut first = metadata(1, "a");
    first.imports.push(import("b"));
    let mut second = metadata(1, "b");
    second.imports.push(import("a"));
    second.imports.push(import("b"));
    assert_eq!(check_libraries(&[first, second]), Ok(()));
    assert_eq!(
        check_libraries(&[metadata(1, "a"), metadata(1, "b")]),
        Err(AgreementError::Services(1))
    );
    assert_eq!(
        check_agreement(&[metadata(1, "a"), metadata(1, "a"), metadata(1, "b")]),
        Err(AgreementError::Services(2))
    );
    assert_eq!(check_agreement(&[]), Err(AgreementError::NoFiles));
}

#[test]
fn merged_services_are_sorted() {
    let import = |id: &str, major, min_minor, optional| Import {
        service_id: id.to_string(),
        major,
        min_minor,
        optional,
    };
    let imports = [
        import("b", 1, 0, false),
        import("a", 2, 0, false),
        import("a", 1, 9, false),
        import("a", 1, 0, true),
        import("a", 1, 0, false),
    ];
    assert_eq!(import_order(&imports), [4, 3, 2, 1, 0]);
    let export = |id: &str, minor| Export {
        service_id: id.to_string(),
        major: 1,
        minor,
        deferred: false,
    };
    assert_eq!(export_order(&[export("x", 2), export("x", 1), export("w", 3)]), [2, 1, 0]);
}

#[test]
fn the_package_keys_are_merged() {
    let mut meta = metadata(7, "b");
    meta.imports.push(Import {
        service_id: "a \"quoted\"".into(),
        major: 2,
        min_minor: 3,
        optional: true,
    });
    meta.exports.push(Export { service_id: "c".into(), major: 4, minor: 5, deferred: false });
    let text = r#"{"version": [1, 2.5, null], "name": "mod", "imports": false}"#;
    let updated = update_json(text, &meta).unwrap();
    assert!(updated.ends_with("\n}\n"));
    let value: serde_json::Value = serde_json::from_str(&updated).unwrap();
    let object = value.as_object().unwrap();
    let names: Vec<&str> = object.keys().map(|name| name.as_str()).collect();
    assert_eq!(names, ["abi", "exports", "imports", "name", "version"]);
    assert_eq!(object["abi"].to_string(), "7");
    assert_eq!(
        object["imports"].to_string(),
        r#"[{"major":2,"min_minor":3,"optional":true,"service_id":"a \"quoted\""},{"major":1,"min_minor":0,"optional":false,"service_id":"b"}]"#
    );
    assert_eq!(
        object["exports"].to_string(),
        r#"[{"deferred":false,"major":4,"minor":5,"service_id":"c"}]"#
    );
    assert_eq!(object["name"].to_string(), "\"mod\"");
    assert_eq!(object["version"].to_string(), "[1,2.5,null]");
    assert_eq!(update_json(&updated, &meta).unwrap(), updated);

    meta.imports.clear();
    meta.exports.clear();
    assert_eq!(
        update_json("{}", &meta).unwrap(),
        "{\n  \"abi\": 7,\n  \"exports\": [],\n  \"imports\": []\n}\n"
    );
    assert_eq!(update_json("[]", &meta), Err(JsonFault::NotObject));
    assert_eq!(update_json("{", &meta), Err(JsonFault::NotJson));
    assert_eq!(update_json(&"[".repeat(100_000), &meta), Err(JsonFault::NotJson));
    let number = || serde_json::Value::from(1);
    assert_eq!(
        update_text("{\"abi\": 2}", number(), number(), number()).unwrap(),
        "{\n  \"abi\": 1,\n  \"exports\": 1,\n  \"imports\": 1\n}"
    );
}
