use object::macho;
use symgen::cmd::stub::macho::{macho_slice, symbol_table};
use symgen::cmd::stub::trie::export_trie;
use symgen::cmd::stub::{single_arch, Arch, Format};

use object::{Object, ObjectSymbol};
use object::read::archive::ArchiveFile;
use object::read::coff::ImportFile;
use symgen::cmd::stub::implib::{choose_module, drop_targets};
use symgen::cmd::stub::tokens::shorten;
use symgen::cmd::stub::symbols::{is_def, parse_symbol_list};
use symgen::cmd::stub::{macho_stub, parse_version, run, write_elf, Args, Platform, StubError};

#[test]
fn single_arch_formats_reject_multiple_arches() {
    assert_eq!(single_arch(Format::Implib, &[]).unwrap(), Arch::X86_64);
    assert_eq!(single_arch(Format::Elf, &[Arch::Arm64]).unwrap(), Arch::Arm64);
    assert!(single_arch(Format::Implib, &[Arch::Arm64, Arch::X86_64]).is_err());
    assert!(single_arch(Format::Elf, &[Arch::Arm64, Arch::X86_64]).is_err());
}

#[test]
fn stub_slice_round_trips() {
    let symbols = ["_a", "_ab", "_abcdef", "_b", "_game_func", "_game_var"];
    let bytes: Vec<Vec<u8>> = symbols.iter().map(|s| s.as_bytes().to_vec()).collect();
    let trie = export_trie(&bytes).unwrap();
    let (symtab, strtab) = symbol_table(&bytes);
    let slice =
        macho_slice(Arch::Arm64, macho::PLATFORM_MACOS, 0x000B_0000, &trie, &symtab, &strtab);

    let file = object::File::parse(&*slice).unwrap();
    let mut names = file
        .symbols()
        .filter(|s| s.is_global() && !s.is_undefined())
        .map(|s| s.name().unwrap().to_string())
        .collect::<Vec<_>>();
    names.sort_unstable();
    assert_eq!(names, symbols);

    let mut exports = file
        .exports()
        .unwrap()
        .iter()
        .map(|e| String::from_utf8_lossy(e.name()).into_owned())
        .collect::<Vec<_>>();
    exports.sort_unstable();
    assert_eq!(exports, symbols);
}

fn stub_args(format: Format) -> Args {
    Args {
        input: "game".to_string(),
        out: "stub".to_string(),
        format,
        dll_name: None,
        soname: None,
        arch: Vec::new(),
        platform: Platform::MacOS,
        min_os: "11.0".to_string(),
    }
}

fn rows(names: &[&str]) -> Vec<Vec<u8>> {
    names.iter().map(|name| name.as_bytes().to_vec()).collect()
}

const GAME_DEF: &str =
    "LIBRARY game.exe\nEXPORTS\n    game_data DATA\n    game_func\n    wgpuDrop=dawn.wgpuDrop\n";

/// The imports of an import library: the symbol and the module of each.
fn imports(lib: &[u8]) -> Vec<(String, String)> {
    let archive = ArchiveFile::parse(lib).unwrap();
    let mut found = Vec::new();
    for member in archive.members() {
        let data = member.unwrap().data(lib).unwrap();
        if let Ok(import) = ImportFile::parse(data) {
            found.push((
                String::from_utf8_lossy(import.symbol()).into_owned(),
                String::from_utf8_lossy(import.dll()).into_owned(),
            ));
        }
    }
    found.sort();
    found
}

#[test]
fn import_libraries_bind_to_their_module() {
    let stub = run(&stub_args(Format::Implib), GAME_DEF.as_bytes().to_vec()).unwrap();
    assert_eq!((stub.exports, stub.arches), (3, 1));
    let named = |module: &str| -> Vec<(String, String)> {
        ["game_data", "game_func", "wgpuDrop"]
            .iter()
            .map(|name| (name.to_string(), module.to_string()))
            .collect()
    };
    assert_eq!(imports(&stub.data), named("game.exe"));

    let mut args = stub_args(Format::Implib);
    args.dll_name = Some("other.exe".to_string());
    args.arch = vec![Arch::Arm64];
    let stub = run(&args, GAME_DEF.as_bytes().to_vec()).unwrap();
    assert_eq!(imports(&stub.data), named("other.exe"));
}

#[test]
fn forward_targets_are_dropped() {
    assert_eq!(drop_targets("EXPORTS\n    a=m.a\r\n    b\n"), "EXPORTS\n    a\n    b");
    assert_eq!(drop_targets(""), "");
    assert_eq!(choose_module(None, None), Err(StubError::BadDef));
    assert_eq!(
        choose_module(Some((String::new(), 0)), None),
        Err(StubError::NoModuleName)
    );
    assert_eq!(
        choose_module(Some(("a.dll".to_string(), 2)), None),
        Ok("a.dll".to_string())
    );
    assert_eq!(
        choose_module(Some(("a.dll".to_string(), 2)), Some("b.dll".to_string())),
        Ok("b.dll".to_string())
    );
}

#[test]
fn what_stands_between_tokens_is_taken_out() {
    let text = "; head\nLIBRARY  game.exe\n\nEXPORTS ;tail\n   a DATA\n\"b  c\" \t\n , ;x\n d";
    assert_eq!(
        shorten(text),
        "LIBRARY  game.exe\n\nEXPORTS  a DATA\n\"b  c\",x\n d"
    );
    assert_eq!(shorten("a"), "");
    assert_eq!(shorten("ab"), "ab");
    assert_eq!(shorten(" \"a b"), " \"a ");
    assert_eq!(shorten("\u{a0}\u{c}\na\0;"), "a\0;");
    assert_eq!(shorten(""), "");
}

#[test]
fn long_runs_of_blanks_and_comments_are_skipped() {
    let args = stub_args(Format::Implib);
    let stub = run(&args, GAME_DEF.as_bytes().to_vec()).unwrap();
    let mut text = "\n".repeat(1_000_000);
    for line in GAME_DEF.lines() {
        text.push_str(line);
        text.push('\n');
        text.push_str(&"; a comment\n".repeat(100_000));
        text.push_str(&" ".repeat(1_000_000));
    }
    let again = run(&args, text.into_bytes()).unwrap();
    assert_eq!(again.data, stub.data);
    assert_eq!(again.exports, 3);
}

#[test]
fn a_forward_is_imported_under_its_own_name() {
    let cut = "LIBRARY game.exe\nEXPORTS\n    game_data DATA\n    game_func\n    wgpuDrop\n";
    let args = stub_args(Format::Implib);
    let stub = run(&args, GAME_DEF.as_bytes().to_vec()).unwrap();
    let again = run(&args, cut.as_bytes().to_vec()).unwrap();
    assert_eq!(stub.data, again.data);
    assert_eq!(stub.exports, again.exports);
}

#[test]
fn stub_errors() {
    let text = b"_a\n_b\n".to_vec();
    let fails = |args: &Args, data: &[u8]| run(args, data.to_vec()).err().unwrap();
    let implib = stub_args(Format::Implib);
    assert_eq!(fails(&implib, &text), StubError::NotDef);
    assert_eq!(fails(&implib, &[0xff, 0xfe]), StubError::NotText);
    assert_eq!(fails(&implib, b"EXPORTS\n    a\n"), StubError::NoModuleName);
    let mut both = stub_args(Format::Elf);
    both.arch = vec![Arch::Arm64, Arch::X86_64];
    assert_eq!(fails(&both, &text), StubError::MultipleArches);
    let macho = stub_args(Format::Macho);
    assert_eq!(fails(&macho, GAME_DEF.as_bytes()), StubError::NeedsSymbolList);
    assert_eq!(fails(&macho, b"# nothing\n\n"), StubError::NoSymbols);
    let mut version = stub_args(Format::Macho);
    version.min_os = "latest".to_string();
    assert_eq!(fails(&version, &text), StubError::BadVersion);
    let elf = stub_args(Format::Elf);
    assert_eq!(fails(&elf, &text), StubError::NoSoname);
    assert_eq!(fails(&elf, b"\x7fELF"), StubError::BadElf);
}

#[test]
fn versions_are_packed() {
    assert_eq!(parse_version("11.0"), Ok(0x000b_0000));
    assert_eq!(parse_version("10.15.4"), Ok(0x000a_0f04));
    assert_eq!(parse_version("12"), Ok(0x000c_0000));
    assert_eq!(parse_version("+11.x"), Ok(0x000b_0000));
    assert_eq!(parse_version("65535.255.255"), Ok(0xffff_ffff));
    assert_eq!(parse_version("65536.0"), Err(StubError::BadVersion));
    assert_eq!(parse_version("1.256"), Err(StubError::BadVersion));
    assert_eq!(parse_version(""), Err(StubError::BadVersion));
}

fn dynamic_names(data: &[u8]) -> Vec<String> {
    let file = object::File::parse(data).unwrap();
    file.dynamic_symbols()
        .filter(|symbol| !symbol.is_undefined())
        .map(|symbol| symbol.name().unwrap().to_string())
        .collect()
}

#[test]
fn elf_stubs_mirror_their_input() {
    let mut args = stub_args(Format::Elf);
    args.soname = Some("libmain.so".to_string());
    args.arch = vec![Arch::Arm64];
    let first = run(&args, b"beta\n  alpha \n# note\nbeta\n".to_vec()).unwrap();
    assert_eq!((first.exports, first.arches), (2, 1));
    assert_eq!(dynamic_names(&first.data), ["alpha", "beta"]);
    let file = object::File::parse(&*first.data).unwrap();
    assert_eq!(file.architecture(), object::Architecture::Aarch64);
    assert!(first.data.windows(11).any(|bytes| bytes == b"libmain.so\0"));

    // A built shared object gives the same stub as the list of its symbols.
    let second = run(&args, first.data.clone()).unwrap();
    assert_eq!(second.data, first.data);
}

#[test]
fn an_elf_stub_without_symbols_is_not_mirrored() {
    let empty = write_elf(&[], &Some("lib.so".to_string()), &[]).unwrap();
    let mut args = stub_args(Format::Elf);
    args.soname = Some("lib.so".to_string());
    assert_eq!(run(&args, empty).err(), Some(StubError::NoDynamicSymbols));
}

#[test]
fn elf_stub_tables_stand_in_order() {
    let data = write_elf(&rows(&["f"]), &Some("l".to_string()), &[]).unwrap();
    let field = |at: usize| u64::from_le_bytes(data[at..at + 8].try_into().unwrap());
    assert_eq!(u16::from_le_bytes([data[18], data[19]]), 62);
    assert_eq!(field(32), 64);
    // Symbols behind the header and two program headers, then the names, then the dynamic table.
    let dynsym = 64 + 2 * 56;
    let dynstr = dynsym + 2 * 24;
    let dynamic = (dynstr + 5usize).next_multiple_of(8);
    assert_eq!(&data[dynstr..dynstr + 5], b"\0f\0l\0");
    assert_eq!(field(dynamic), 14);
    assert_eq!(field(dynamic + 8), 3);
    assert_eq!(field(40) as usize + 5 * 64, data.len());
}

#[test]
fn macho_stubs_are_universal_by_default() {
    let stub = run(&stub_args(Format::Macho), b"_b\n_a\n".to_vec()).unwrap();
    assert_eq!((stub.exports, stub.arches), (2, 2));
    let data = &stub.data;
    assert_eq!(&data[..8], &[0xca, 0xfe, 0xba, 0xbe, 0, 0, 0, 2]);
    let word = |at: usize| u32::from_be_bytes(data[at..at + 4].try_into().unwrap());
    assert_eq!(word(8), macho::CPU_TYPE_ARM64);
    assert_eq!(word(28), macho::CPU_TYPE_X86_64);
    for at in [8, 28] {
        let (offset, size) = (word(at + 8) as usize, word(at + 12) as usize);
        assert_eq!(offset % 0x4000, 0);
        let file = object::File::parse(&data[offset..offset + size]).unwrap();
        assert_eq!(file.exports().unwrap().len(), 2);
    }

    let mut phone = stub_args(Format::Macho);
    phone.platform = Platform::Ios;
    let stub = run(&phone, b"_a\n".to_vec()).unwrap();
    assert_eq!(stub.arches, 1);
    let thin = macho_stub(&rows(&["_a"]), &[Arch::Arm64], 2, 0x000b_0000).unwrap();
    assert_eq!(stub.data, thin);
    assert_eq!(&thin[..4], &[0xcf, 0xfa, 0xed, 0xfe]);
}

#[test]
fn an_export_trie_has_this_form() {
    // The root has one edge to `_a`, which is terminal and has one edge `b` on.
    let trie = export_trie(&rows(&["_a", "_ab"])).unwrap();
    assert_eq!(&trie[..5], &[0, 1, b'_', b'a', 0]);
    let node = trie[5] as usize;
    let terminal = trie[node] as usize;
    assert!(terminal > 0);
    assert_eq!(&trie[node + 1 + terminal..node + 4 + terminal], &[1, b'b', 0]);
}

#[test]
fn symbol_lists_and_defs_are_told_apart() {
    assert!(is_def("; x\nlibrary foo\n"));
    assert!(is_def("  Exports  \n"));
    assert!(is_def("EXPORTS a\n"));
    assert!(!is_def("EXPORTSa\n"));
    assert_eq!(parse_symbol_list(" b \r\n#c\n\na\nb").unwrap(), rows(&["a", "b"]));
}

#[test]
fn stub_option_names() {
    assert_eq!(Format::parse("implib"), Some(Format::Implib));
    assert_eq!(Format::parse("macho"), Some(Format::Macho));
    assert_eq!(Format::parse("elf"), Some(Format::Elf));
    assert_eq!(Format::parse("ELF"), None);
    assert_eq!(Arch::parse("aarch64"), Some(Arch::Arm64));
    assert_eq!(Arch::parse("amd64"), Some(Arch::X86_64));
    assert_eq!(Arch::parse("x86-64"), Some(Arch::X86_64));
    assert_eq!(Arch::parse("arm"), None);
    assert_eq!(Platform::parse("tvos"), Some(Platform::TvOS));
    assert_eq!(Platform::parse("watchos"), None);
    assert_eq!(Platform::Ios.code(), macho::PLATFORM_IOS);
}
