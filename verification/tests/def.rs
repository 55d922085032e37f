use symgen::cmd::def::forward::Forwarder;
use symgen::cmd::def::render::render_def;
use symgen::cmd::def::DefSymbol;
use symgen::cmd::def::{
    ends_in_res, is_skip_symbol, norm, path_included, run, select_inputs, Args, DefError,
};
use symgen::cmd::def::forward::ForwardDll;

fn symbol(name: &str, data: bool) -> DefSymbol {
    DefSymbol { name: name.as_bytes().to_vec(), data }
}

fn forwarder(name: &str, target: &str) -> Forwarder {
    Forwarder { name: name.as_bytes().to_vec(), target: target.as_bytes().to_vec() }
}

#[test]
fn renders_forwarded_exports_in_name_order() {
    let exports = vec![symbol("local_data", true), symbol("local_function", false)];
    let forwarders = vec![forwarder("wgpuDeviceCreateBuffer", "webgpu_dawn.wgpuDeviceCreateBuffer")];

    assert_eq!(
        render_def(&exports, &forwarders).unwrap(),
        b"EXPORTS\n    local_data DATA\n    local_function\n    wgpuDeviceCreateBuffer=webgpu_dawn.wgpuDeviceCreateBuffer\n"
    );
}

#[test]
fn rejects_local_and_forwarded_name_collision() {
    let exports = vec![symbol("same", false)];
    let forwarders = vec![forwarder("same", "provider.same")];

    assert!(render_def(&exports, &forwarders).is_err());
}

struct PeSection {
    name: &'static [u8],
    address: u32,
    data: Vec<u8>,
    flags: u32,
}

const PE_BASE: u64 = 0x1_4000_0000;
const PE_FILE_ALIGN: usize = 0x200;

/// A PE32+ image for x86-64. Its headers fill `headers` bytes of the file.
fn pe(machine: u16, headers: usize, sections: &[PeSection], directories: &[(usize, u32, u32)]) -> Vec<u8> {
    let mut out = vec![0u8; headers];
    out[..2].copy_from_slice(b"MZ");
    out[60..64].copy_from_slice(&0x40u32.to_le_bytes());
    out[0x40..0x44].copy_from_slice(b"PE\0\0");
    let mut file = Vec::new();
    file.extend_from_slice(&machine.to_le_bytes());
    file.extend_from_slice(&(sections.len() as u16).to_le_bytes());
    file.extend_from_slice(&[0u8; 12]);
    file.extend_from_slice(&240u16.to_le_bytes());
    file.extend_from_slice(&0x2022u16.to_le_bytes());
    out[0x44..0x58].copy_from_slice(&file);

    let optional = 0x58;
    out[optional..optional + 2].copy_from_slice(&0x20bu16.to_le_bytes());
    out[optional + 24..optional + 32].copy_from_slice(&PE_BASE.to_le_bytes());
    out[optional + 32..optional + 36].copy_from_slice(&0x1000u32.to_le_bytes());
    out[optional + 36..optional + 40].copy_from_slice(&(PE_FILE_ALIGN as u32).to_le_bytes());
    out[optional + 60..optional + 64].copy_from_slice(&(headers as u32).to_le_bytes());
    out[optional + 108..optional + 112].copy_from_slice(&16u32.to_le_bytes());
    for (index, address, size) in directories {
        let at = optional + 112 + 8 * index;
        out[at..at + 4].copy_from_slice(&address.to_le_bytes());
        out[at + 4..at + 8].copy_from_slice(&size.to_le_bytes());
    }

    let mut image_size = 0x1000u32;
    for (i, section) in sections.iter().enumerate() {
        let at = optional + 240 + 40 * i;
        let raw = out.len() as u32;
        let size = section.data.len().next_multiple_of(PE_FILE_ALIGN);
        out[at..at + section.name.len()].copy_from_slice(section.name);
        out[at + 8..at + 12].copy_from_slice(&(section.data.len() as u32).to_le_bytes());
        out[at + 12..at + 16].copy_from_slice(&section.address.to_le_bytes());
        out[at + 16..at + 20].copy_from_slice(&(size as u32).to_le_bytes());
        out[at + 20..at + 24].copy_from_slice(&raw.to_le_bytes());
        out[at + 36..at + 40].copy_from_slice(&section.flags.to_le_bytes());
        out.extend_from_slice(&section.data);
        out.resize(raw as usize + size, 0);
        image_size =
            image_size.max((section.address + section.data.len() as u32).next_multiple_of(0x1000));
    }
    out[optional + 56..optional + 60].copy_from_slice(&image_size.to_le_bytes());
    out
}

/// An archive of the given members.
fn archive(members: &[(&str, &[u8])]) -> Vec<u8> {
    let mut out = b"!<arch>\n".to_vec();
    for (name, data) in members {
        let header =
            format!("{:<16}{:<12}{:<6}{:<6}{:<8}{:<10}`\n", format!("{name}/"), 0, 0, 0, 644, data.len());
        out.extend_from_slice(header.as_bytes());
        out.extend_from_slice(data);
        if data.len() % 2 != 0 {
            out.push(b'\n');
        }
    }
    out
}

fn def_args() -> Args {
    Args {
        inputs: Vec::new(),
        out: "game.def".to_string(),
        sdk_lib: Vec::new(),
        forward_dll: Vec::new(),
        forward_sym_prefix: Vec::new(),
        includes: Vec::new(),
        excludes: Vec::new(),
        exclude_sym: Vec::new(),
        max_exports: 60000,
    }
}

struct CoffFixtureSymbol {
    name: &'static str,
    section: i32,
    class: u8,
    /// COMDAT selection of a section symbol.
    selection: Option<u8>,
}

fn external(name: &'static str, section: i32) -> CoffFixtureSymbol {
    CoffFixtureSymbol { name, section, class: 2, selection: None }
}

fn comdat(name: &'static str, section: i32, selection: u8) -> CoffFixtureSymbol {
    CoffFixtureSymbol { name, section, class: 3, selection: Some(selection) }
}

/// A COFF object whose sections have the given flags, in the classic form or in that of /bigobj.
fn coff(big: bool, sections: &[u32], symbols: &[CoffFixtureSymbol]) -> Vec<u8> {
    let header = if big { 56 } else { 20 };
    let symbols_at = (header + 40 * sections.len()) as u32;
    let mut table = Vec::new();
    let mut strings = vec![0u8; 4];
    let mut count = 0u32;
    for symbol in symbols {
        table.extend_from_slice(&0u32.to_le_bytes());
        table.extend_from_slice(&(strings.len() as u32).to_le_bytes());
        strings.extend_from_slice(symbol.name.as_bytes());
        strings.push(0);
        table.extend_from_slice(&0u32.to_le_bytes());
        if big {
            table.extend_from_slice(&symbol.section.to_le_bytes());
        } else {
            table.extend_from_slice(&(symbol.section as i16).to_le_bytes());
        }
        table.extend_from_slice(&0u16.to_le_bytes());
        table.push(symbol.class);
        table.push(symbol.selection.is_some() as u8);
        count += 1;
        if let Some(selection) = symbol.selection {
            let mut aux = vec![0u8; if big { 20 } else { 18 }];
            aux[12..14].copy_from_slice(&(symbol.section as u16).to_le_bytes());
            aux[14] = selection;
            table.extend_from_slice(&aux);
            count += 1;
        }
    }
    let size = strings.len() as u32;
    strings[..4].copy_from_slice(&size.to_le_bytes());

    let mut out = Vec::new();
    if big {
        out.extend_from_slice(&[0, 0, 0xff, 0xff, 2, 0, 0x64, 0x86]);
        out.extend_from_slice(&[0u8; 4]);
        out.extend_from_slice(&[
            0xc7, 0xa1, 0xba, 0xd1, 0xee, 0xba, 0xa9, 0x4b, 0xaf, 0x20, 0xfa, 0xf6, 0x6a, 0xa4, 0xdc,
            0xb8,
        ]);
        out.extend_from_slice(&[0u8; 16]);
        out.extend_from_slice(&(sections.len() as u32).to_le_bytes());
        out.extend_from_slice(&symbols_at.to_le_bytes());
        out.extend_from_slice(&count.to_le_bytes());
    } else {
        out.extend_from_slice(&0x8664u16.to_le_bytes());
        out.extend_from_slice(&(sections.len() as u16).to_le_bytes());
        out.extend_from_slice(&[0u8; 4]);
        out.extend_from_slice(&symbols_at.to_le_bytes());
        out.extend_from_slice(&count.to_le_bytes());
        out.extend_from_slice(&[0u8; 4]);
    }
    for flags in sections {
        let mut section = [0u8; 40];
        section[..5].copy_from_slice(b".part");
        section[36..].copy_from_slice(&flags.to_le_bytes());
        out.extend_from_slice(&section);
    }
    out.extend_from_slice(&table);
    out.extend_from_slice(&strings);
    out
}

const CODE: u32 = 0x6000_0020;
const DATA: u32 = 0xc000_0040;
const COMDAT_CODE: u32 = 0x6000_1020;

fn coff_object(big: bool) -> Vec<u8> {
    coff(
        big,
        &[CODE, DATA, COMDAT_CODE, COMDAT_CODE],
        &[
            external("game_func", 1),
            external("game_data", 2),
            external("?tick@Game@@QEAAXXZ", 1),
            external("main", 1),
            external("??_R0?AVGame@@@8", 2),
            external("undefined", 0),
            external("absolute", -1),
            CoffFixtureSymbol { name: "file_static", section: 1, class: 3, selection: None },
            comdat(".any", 3, 2),
            external("inlined", 3),
            comdat(".unique", 4, 1),
            external("unique", 4),
        ],
    )
}

const COFF_DEF: &str =
    "EXPORTS\n    ?tick@Game@@QEAAXXZ\n    game_data DATA\n    game_func\n    unique\n";

#[test]
fn coff_objects_are_scanned_in_both_forms() {
    for big in [false, true] {
        let definition = run(&def_args(), &[coff_object(big)], &[], &[]).unwrap();
        assert_eq!(String::from_utf8(definition.def).unwrap(), COFF_DEF);
        assert_eq!(definition.exports, 4);
        assert_eq!(definition.data, 1);
        assert_eq!(definition.forwarded, 0);
        assert!(!definition.over_limit);
    }
}

#[test]
fn names_of_both_code_and_data_are_told() {
    let one = coff(false, &[CODE, DATA], &[external("both", 1), external("value", 2)]);
    let two = coff(false, &[CODE, DATA], &[external("value", 2), external("both", 2)]);
    let definition = run(&def_args(), &[one, two], &[], &[]).unwrap();
    assert_eq!(definition.mixed, [b"both"]);
    assert_eq!(definition.def, b"EXPORTS\n    both\n    value DATA\n");
    assert!(run(&def_args(), &[coff_object(false)], &[], &[]).unwrap().mixed.is_empty());
}

#[test]
fn sdk_libraries_export_only_c_names() {
    let mut args = def_args();
    args.exclude_sym = vec!["game_d".to_string()];
    let lib = archive(&[("one.obj", &coff_object(false)), ("empty", b"")]);
    let definition = run(&args, &[], &[lib], &[]).unwrap();
    assert_eq!(
        String::from_utf8(definition.def).unwrap(),
        "EXPORTS\n    game_func\n    unique\n"
    );
}

/// A DLL with the given named exports.
fn dll(names: &[&[u8]]) -> Vec<u8> {
    let base = 0x1000u32;
    let count = names.len() as u32;
    let functions = 40;
    let name_table = functions + 4 * count;
    let ordinals = name_table + 4 * count;
    let mut texts = ordinals + 2 * count;
    let mut data = vec![0u8; texts as usize];
    for (i, name) in names.iter().enumerate() {
        let i = i as u32;
        let at = (functions + 4 * i) as usize;
        data[at..at + 4].copy_from_slice(&(0x5000 + i).to_le_bytes());
        let at = (name_table + 4 * i) as usize;
        data[at..at + 4].copy_from_slice(&(base + texts).to_le_bytes());
        let at = (ordinals + 2 * i) as usize;
        data[at..at + 2].copy_from_slice(&(i as u16).to_le_bytes());
        data.extend_from_slice(name);
        data.push(0);
        texts += name.len() as u32 + 1;
    }
    let fields = [1, count, count, base + functions, base + name_table, base + ordinals];
    for (i, field) in fields.iter().enumerate() {
        data[16 + 4 * i..20 + 4 * i].copy_from_slice(&field.to_le_bytes());
    }
    let size = data.len() as u32;
    pe(
        0x8664,
        0x200,
        &[PeSection { name: b".rdata", address: base, data, flags: 0x4000_0040 }],
        &[(0, base, size)],
    )
}

fn forward(module: &str, names: &[&[u8]]) -> ForwardDll {
    ForwardDll { module: Some(module.to_string()), data: dll(names) }
}

#[test]
fn dll_exports_are_forwarded() {
    let mut args = def_args();
    args.forward_sym_prefix = vec!["wgpu".to_string()];
    let dlls = [forward("webgpu_dawn", &[b"other", b"wgpuCreate", b"wgpuDrop"])];
    let definition = run(&args, &[coff_object(false)], &[], &dlls).unwrap();
    assert_eq!(
        String::from_utf8(definition.def).unwrap(),
        format!(
            "{COFF_DEF}    wgpuCreate=webgpu_dawn.wgpuCreate\n    wgpuDrop=webgpu_dawn.wgpuDrop\n"
        )
    );
    assert_eq!(definition.exports, 6);
    assert_eq!(definition.forwarded, 2);
}

#[test]
fn the_export_limit_is_reported() {
    let mut args = def_args();
    args.max_exports = 3;
    assert!(run(&args, &[coff_object(false)], &[], &[]).unwrap().over_limit);
    args.max_exports = 4;
    assert!(!run(&args, &[coff_object(false)], &[], &[]).unwrap().over_limit);
    args.max_exports = 0;
    assert!(!run(&args, &[coff_object(false)], &[], &[]).unwrap().over_limit);
}

fn def_error(objects: &[Vec<u8>], dlls: &[ForwardDll]) -> DefError {
    run(&def_args(), objects, &[], dlls).err().unwrap()
}

#[test]
fn def_errors_name_the_file() {
    assert_eq!(select_inputs(&[], &def_args()).err(), Some(DefError::NoInputs));
    let good = coff_object(false);
    assert_eq!(def_error(&[good.clone(), vec![1, 2, 3]], &[]), DefError::BadObject(1));
    assert_eq!(def_error(&[b"!<arch>".to_vec()], &[]), DefError::BadArchive(0));
    let mut cut = archive(&[("one.obj", &good)]);
    cut.extend_from_slice(b"short header");
    assert_eq!(def_error(&[cut], &[]), DefError::BadMember(0));

    let named = |data: Vec<u8>| ForwardDll { module: Some("m".to_string()), data };
    assert_eq!(def_error(&[], &[named(vec![0; 64])]), DefError::ForwardUnknown(0));
    assert_eq!(def_error(&[], &[named(good.clone())]), DefError::ForwardNotPe(0));
    let mut cut = dll(&[b"a"]);
    cut.truncate(0x160);
    assert_eq!(def_error(&[], &[named(cut)]), DefError::ForwardUnparsed(0));
    assert_eq!(
        def_error(&[], &[ForwardDll { module: None, data: dll(&[b"a"]) }]),
        DefError::ForwardNoModule(0)
    );
    assert_eq!(
        def_error(&[], &[forward("", &[b"a"])]),
        DefError::ForwardNoModule(0)
    );
    let mut broken = dll(&[b"a"]);
    let table = 0x200 + 32;
    broken[table..table + 4].copy_from_slice(&0xff_0000u32.to_le_bytes());
    assert_eq!(def_error(&[], &[named(broken)]), DefError::ForwardExports(0));
    assert_eq!(def_error(&[], &[forward("m", &[b"bad\xff"])]), DefError::ForwardNotUtf8(0));
    assert_eq!(
        def_error(&[], &[forward("one", &[b"same"]), forward("two", &[b"same"])]),
        DefError::ForwardConflict(1)
    );
    assert_eq!(def_error(&[good], &[forward("m", &[b"aaa", b"unique"])]), DefError::Conflict(1));
}

#[test]
fn equal_forwarders_are_no_conflict() {
    let dlls = [forward("one", &[b"same"]), forward("one", &[b"same"])];
    let definition = run(&def_args(), &[], &[], &dlls).unwrap();
    assert_eq!(String::from_utf8(definition.def).unwrap(), "EXPORTS\n    same=one.same\n");
}

#[test]
fn def_inputs_are_filtered_by_path() {
    assert_eq!(norm("a\\b/c"), "a/b/c");
    assert!(ends_in_res("dir\\App.RES"));
    assert!(!ends_in_res("app.resx"));
    assert!(path_included("src\\a.obj", &["src/".to_string()], &[]));
    assert!(!path_included("src/a.obj", &["src\\a".to_string()], &[]));
    let mut args = def_args();
    args.includes = vec!["src\\".to_string()];
    args.excludes = vec!["gen".to_string()];
    let inputs: Vec<String> = ["src/a.obj", "src\\gen\\b.obj", "src/c.res", "lib/d.obj", "src\\e.obj"]
        .iter()
        .map(|s| s.to_string())
        .collect();
    assert_eq!(select_inputs(&inputs, &args).unwrap(), ["src/a.obj", "src\\e.obj"]);
}

#[test]
fn runtime_symbols_are_skipped() {
    for name in ["??_C@_03", "__imp_Sleep", "$pdata$f", ".text", "@feat.00", "a@std@@b", "DllMain"] {
        assert!(is_skip_symbol(name.as_bytes()), "{name}");
    }
    for name in ["Sleep", "my_main", "?f@@YAXXZ", "std"] {
        assert!(!is_skip_symbol(name.as_bytes()), "{name}");
    }
}
