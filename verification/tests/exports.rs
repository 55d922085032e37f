use symgen::cmd::exports::{
    classify, path_included, render, run, select_inputs, Args, ExportsError, OutputFormat, Verdict,
};
use symgen::util::objfile::{SymbolClass, SymbolFact};

struct Section {
    name: &'static str,
    kind: u32,
    flags: u64,
    address: u64,
    data: Vec<u8>,
}

struct Symbol {
    name: &'static str,
    /// Binding in the upper half, type in the lower one.
    info: u8,
    visibility: u8,
    /// One-based index among the given sections; 0 is undefined.
    section: u16,
    value: u64,
}

fn pad(out: &mut Vec<u8>, align: usize) {
    while out.len() % align != 0 {
        out.push(0);
    }
}

fn add_string(table: &mut Vec<u8>, text: &str) -> u32 {
    let offset = table.len() as u32;
    table.extend_from_slice(text.as_bytes());
    table.push(0);
    offset
}

fn section_header(fields: [u64; 10]) -> Vec<u8> {
    let mut out = Vec::new();
    for (i, value) in fields.iter().enumerate() {
        if matches!(i, 0 | 1 | 6 | 7) {
            out.extend_from_slice(&(*value as u32).to_le_bytes());
        } else {
            out.extend_from_slice(&value.to_le_bytes());
        }
    }
    out
}

/// A little-endian ELF64 file: the given sections, then `.symtab`, `.strtab` and `.shstrtab`.
fn elf(kind: u16, machine: u16, sections: &[Section], symbols: &[Symbol]) -> Vec<u8> {
    let mut out = vec![0u8; 64];
    let mut names = vec![0u8];
    let mut headers = section_header([0; 10]);
    for section in sections {
        pad(&mut out, 16);
        let name = add_string(&mut names, section.name);
        headers.extend(section_header([
            name.into(),
            section.kind.into(),
            section.flags,
            section.address,
            out.len() as u64,
            section.data.len() as u64,
            0,
            0,
            8,
            0,
        ]));
        out.extend_from_slice(&section.data);
    }

    let mut strings = vec![0u8];
    let mut table = vec![0u8; 24];
    let mut locals = 1u64;
    for symbol in symbols {
        table.extend_from_slice(&add_string(&mut strings, symbol.name).to_le_bytes());
        table.push(symbol.info);
        table.push(symbol.visibility);
        table.extend_from_slice(&symbol.section.to_le_bytes());
        table.extend_from_slice(&symbol.value.to_le_bytes());
        table.extend_from_slice(&0u64.to_le_bytes());
        if symbol.info >> 4 == 0 {
            locals += 1;
        }
    }
    let count = sections.len() as u64;
    pad(&mut out, 16);
    let name = add_string(&mut names, ".symtab");
    headers.extend(section_header([
        name.into(),
        2,
        0,
        0,
        out.len() as u64,
        table.len() as u64,
        count + 2,
        locals,
        8,
        24,
    ]));
    out.extend_from_slice(&table);
    let name = add_string(&mut names, ".strtab");
    headers.extend(section_header([
        name.into(),
        3,
        0,
        0,
        out.len() as u64,
        strings.len() as u64,
        0,
        0,
        1,
        0,
    ]));
    out.extend_from_slice(&strings);
    let name = add_string(&mut names, ".shstrtab");
    headers.extend(section_header([
        name.into(),
        3,
        0,
        0,
        out.len() as u64,
        names.len() as u64,
        0,
        0,
        1,
        0,
    ]));
    out.extend_from_slice(&names);
    pad(&mut out, 8);
    let table_at = out.len() as u64;
    out.extend_from_slice(&headers);

    out[..16].copy_from_slice(b"\x7fELF\x02\x01\x01\0\0\0\0\0\0\0\0\0");
    out[16..18].copy_from_slice(&kind.to_le_bytes());
    out[18..20].copy_from_slice(&machine.to_le_bytes());
    out[20..24].copy_from_slice(&1u32.to_le_bytes());
    out[40..48].copy_from_slice(&table_at.to_le_bytes());
    out[52..54].copy_from_slice(&64u16.to_le_bytes());
    out[54..56].copy_from_slice(&56u16.to_le_bytes());
    out[58..60].copy_from_slice(&64u16.to_le_bytes());
    out[60..62].copy_from_slice(&(count as u16 + 4).to_le_bytes());
    out[62..64].copy_from_slice(&(count as u16 + 3).to_le_bytes());
    out
}

/// An archive of the given members.
fn archive(members: &[(&str, &[u8])]) -> Vec<u8> {
    let mut out = b"!<arch>\n".to_vec();
    for (name, data) in members {
        let header =
            format!("{:<16}{:<12}{:<6}{:<6}{:<8}{:<10}`\n", format!("{name}/"), 0, 0, 0, 644, data.len());
        out.extend_from_slice(header.as_bytes());
        out.extend_from_slice(data);
        if data.len() % 2 != 0 {
            out.push(b'\n');
        }
    }
    out
}

fn args() -> Args {
    Args {
        inputs: Vec::new(),
        out: "game.exp".to_string(),
        sdk_lib: Vec::new(),
        includes: Vec::new(),
        excludes: Vec::new(),
        exclude_sym: Vec::new(),
        extra_sym: Vec::new(),
        format: OutputFormat::List,
    }
}

const FUNC: u8 = 0x12;
const WEAK_FUNC: u8 = 0x22;
const LOCAL_FUNC: u8 = 0x02;

fn function(name: &'static str, info: u8) -> Symbol {
    Symbol { name, info, visibility: 0, section: 1, value: 0 }
}

fn text() -> Section {
    Section { name: ".text", kind: 1, flags: 6, address: 0, data: vec![0xc3; 16] }
}

/// An object with symbols of each kind.
fn game_object() -> Vec<u8> {
    elf(
        1,
        62,
        &[text()],
        &[
            function("local_helper", LOCAL_FUNC),
            function("zebra", FUNC),
            function("_ZN4Game4tickEv", FUNC),
            function("inlined", WEAK_FUNC),
            function("main", FUNC),
            function("__asan_init", FUNC),
            function("internal_thing", FUNC),
            Symbol { name: "hidden", info: FUNC, visibility: 2, section: 1, value: 0 },
            Symbol { name: "missing", info: FUNC, visibility: 0, section: 0, value: 0 },
        ],
    )
}

fn sdk_object() -> Vec<u8> {
    elf(
        1,
        62,
        &[text()],
        &[function("SDL_Init", FUNC), function("_ZN3SDL4ImplEv", FUNC), function("zebra", FUNC)],
    )
}

#[test]
fn lists_what_objects_export() {
    let mut args = args();
    args.exclude_sym = vec!["internal_".to_string()];
    let (list, count) = run(&args, &[game_object()], &[]).unwrap();
    assert_eq!(String::from_utf8(list).unwrap(), "_ZN4Game4tickEv\nzebra\n");
    assert_eq!(count, 2);
}

#[test]
fn libraries_export_only_c_names_and_extras_are_verbatim() {
    let mut args = args();
    args.format = OutputFormat::VersionScript;
    args.extra_sym = vec!["Java_*".to_string(), "zebra".to_string()];
    let lib = archive(&[("sdk.o", &sdk_object()), ("notes.txt", b"no object")]);
    let (list, count) = run(&args, &[game_object()], &[lib]).unwrap();
    assert_eq!(
        String::from_utf8(list).unwrap(),
        "{\nglobal:\nJava_*;\nSDL_Init;\n_ZN4Game4tickEv;\ninternal_thing;\nzebra;\nlocal:\n*;\n};\n"
    );
    assert_eq!(count, 5);
}

#[test]
fn exports_errors_name_the_file() {
    assert_eq!(select_inputs(&[], &args()), Err(ExportsError::NoInputs));
    let good = game_object();
    assert_eq!(
        run(&args(), &[good.clone(), b"plain text file".to_vec()], &[]),
        Err(ExportsError::NotObject(1))
    );
    let mut broken = good.clone();
    broken.truncate(40);
    assert_eq!(run(&args(), &[broken], &[]), Err(ExportsError::BadObject(0)));
    let mut cut = archive(&[("one.o", &good)]);
    cut.extend_from_slice(b"short header");
    assert_eq!(run(&args(), &[good.clone()], &[cut]), Err(ExportsError::BadMember(1)));
    assert_eq!(
        run(&args(), &[good], &[b"!<arch>".to_vec()]),
        Err(ExportsError::BadArchive(1))
    );
}

#[test]
fn inputs_are_filtered_by_path() {
    let includes = vec!["src/".to_string()];
    let excludes = vec!["test".to_string()];
    assert!(path_included("game/src/a.o", &includes, &excludes));
    assert!(!path_included("game/src/a_test.o", &includes, &excludes));
    assert!(!path_included("game/lib/a.o", &includes, &excludes));
    assert!(path_included("game/lib/a.o", &[], &excludes));
    assert!(path_included("src\\a.o", &["src/a".to_string()], &[]));
    assert!(path_included("src/a.o", &["src\\a".to_string()], &[]));
    assert!(!path_included("src\\a.o", &[], &["src/a".to_string()]));

    let mut args = args();
    args.includes = includes;
    args.excludes = excludes;
    let inputs: Vec<String> =
        ["src/b.o", "lib/c.o", "src/test.o", "src\\a.o"].iter().map(|s| s.to_string()).collect();
    assert_eq!(select_inputs(&inputs, &args).unwrap(), ["src/b.o", "src\\a.o"]);
}

fn fact(name: &str) -> SymbolFact {
    SymbolFact {
        name: Some(name.as_bytes().to_vec()),
        definition: true,
        global: true,
        undefined: false,
        weak: false,
        dynamic: true,
        local: false,
        kind: SymbolClass::Text,
    }
}

#[test]
fn symbols_are_classified_by_format() {
    assert_eq!(classify(&fact("_main"), true, false, &[]), Verdict::Name);
    assert_eq!(classify(&fact("_main"), false, false, &[]), Verdict::Export);
    assert_eq!(classify(&fact("__ZN1A1bEv"), true, true, &[]), Verdict::Mangled);
    assert_eq!(classify(&fact("__ZN1A1bEv"), false, true, &[]), Verdict::Export);
    assert_eq!(classify(&fact("_OBJC_CLASS_$_A"), true, false, &[]), Verdict::Name);
}

#[test]
fn an_empty_surface_renders_to_its_frame() {
    assert_eq!(render(&[], OutputFormat::List), b"");
    assert_eq!(render(&[], OutputFormat::VersionScript), b"{\nglobal:\nlocal:\n*;\n};\n");
    assert_eq!(OutputFormat::parse("list"), Some(OutputFormat::List));
    assert_eq!(OutputFormat::parse("version-script"), Some(OutputFormat::VersionScript));
    assert_eq!(OutputFormat::parse("def"), None);
}
