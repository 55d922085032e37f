//! Link stubs (import library, stub Mach-O executable, or stub ELF shared object) from an export
//! surface.

pub mod elf;
pub mod elf_laws;
pub mod implib;
pub mod macho;
pub mod macho_laws;
pub mod symbol_laws;
pub mod symbols;
pub mod tokens;
pub mod trie;

use vstd::prelude::*;
use vstd::utf8::*;
use crate::bytes::byte_rows;
use crate::text::{
    parse_u32, parsed_u32, rows, same_chars, split_at_char, split_chars, text_lines, to_chars,
    utf8_string,
};
use crate::util::objfile::file_dynamic_symbols;
use self::elf::{elf_stub, lemma_elf_stub_size, elf_stub_of, elf_stub_size, string_table, EM_AARCH64, EM_X86_64};
use self::implib::{cut_lines, generate_implib, implib_of, law_forward_imports_as_its_name};
use self::macho::{
    fat_binary, fat_of, fat_offset, macho_slice, macho_slice_of, macho_symbols, slice_fits,
    slice_layout, symbol_table, PAGE_SIZE, PLATFORM_IOS, PLATFORM_MACOS, PLATFORM_TVOS,
};
use self::symbols::{
    elf_dynamic_symbols, exported_names, is_def, is_def_text, parse_symbol_list, symbol_list_of,
};
use self::trie::{export_trie, is_trie_of, nodes_room, tree_of};

verus! {

/// Output format.
#[derive(Clone, Copy, Debug, PartialEq, Eq, Structural)]
pub enum Format {
    /// COFF short import library.
    Implib,
    /// Stub `MH_EXECUTE` for `-bundle_loader`.
    Macho,
    /// Stub shared object.
    Elf,
}

/// Architecture of a stub.
#[derive(Clone, Copy, Debug, PartialEq, Eq, Structural)]
pub enum Arch {
    Arm64,
    X86_64,
}

/// Apple platform of a stub.
#[derive(Clone, Copy, Debug, PartialEq, Eq, Structural)]
pub enum Platform {
    MacOS,
    Ios,
    TvOS,
}

/// Why no stub can be made.
#[derive(Clone, Copy, Debug, PartialEq, Eq, Structural)]
pub enum StubError {
    /// More than one architecture for a format that holds one.
    MultipleArches,
    /// The input is not a text export surface.
    NotText,
    /// An import library needs a `.def` input: symbol lists carry no DATA or forward annotations.
    NotDef,
    /// The `.def` does not parse.
    BadDef,
    /// No module name: neither given nor on a `LIBRARY` line.
    NoModuleName,
    /// The import library cannot be generated.
    Generate,
    /// The format needs a symbol list: PE-decorated `.def` names are meaningless here.
    NeedsSymbolList,
    /// The symbol list holds no symbol.
    NoSymbols,
    /// The ELF file does not parse.
    BadElf,
    /// The ELF file defines no dynamic symbol.
    NoDynamicSymbols,
    /// An ELF stub needs a SONAME.
    NoSoname,
    /// The minimum OS version does not parse.
    BadVersion,
    /// The stub is too large to be held.
    TooLarge,
}

/// What to generate.
#[derive(PartialEq, Eq, Debug)]
pub struct Args {
    /// Input export surface: a `.def` (implib), an `.exp` symbol list (macho/elf), or a built ELF
    /// shared object whose dynamic symbols to mirror (elf).
    pub input: String,
    /// Output file.
    pub out: String,
    pub format: Format,
    /// Import library: module name that imports bind to (default: the `LIBRARY` line).
    pub dll_name: Option<String>,
    /// ELF: `DT_SONAME` of the stub; `DT_NEEDED` entries in consumers record this name.
    pub soname: Option<String>,
    /// Architectures; Mach-O takes several for a universal binary.
    pub arch: Vec<Arch>,
    /// Mach-O: platform.
    pub platform: Platform,
    /// Mach-O: minimum OS version.
    pub min_os: String,
}

/// A generated stub.
pub struct Stub {
    pub data: Vec<u8>,
    /// How many symbols it holds.
    pub exports: usize,
    /// How many architectures it is for.
    pub arches: usize,
}

impl Format {
    /// The format with a name.
    pub open spec fn named(s: Seq<char>) -> Option<Format> {
        if s == "implib"@ {
            Some(Format::Implib)
        } else if s == "macho"@ {
            Some(Format::Macho)
        } else if s == "elf"@ {
            Some(Format::Elf)
        } else {
            None
        }
    }

    /// Find the format with a name.
    pub fn parse(s: &str) -> (r: Option<Format>)
        ensures
            r == Format::named(s@),
    {
        let name: Vec<char> = to_chars(s);
        if same_chars(&name, &to_chars("implib")) {
            Some(Format::Implib)
        } else if same_chars(&name, &to_chars("macho")) {
            Some(Format::Macho)
        } else if same_chars(&name, &to_chars("elf")) {
            Some(Format::Elf)
        } else {
            None
        }
    }
}

impl Arch {
    /// The architecture with a name.
    pub open spec fn named(s: Seq<char>) -> Option<Arch> {
        if s == "arm64"@ || s == "aarch64"@ {
            Some(Arch::Arm64)
        } else if s == "amd64"@ || s == "x86_64"@ || s == "x86-64"@ {
            Some(Arch::X86_64)
        } else {
            None
        }
    }

    /// Find the architecture with a name.
    pub fn parse(s: &str) -> (r: Option<Arch>)
        ensures
            r == Arch::named(s@),
    {
        let name: Vec<char> = to_chars(s);
        if same_chars(&name, &to_chars("arm64")) || same_chars(&name, &to_chars("aarch64")) {
            Some(Arch::Arm64)
        } else if same_chars(&name, &to_chars("amd64")) || same_chars(&name, &to_chars("x86_64"))
            || same_chars(&name, &to_chars("x86-64")) {
            Some(Arch::X86_64)
        } else {
            None
        }
    }
}

impl Platform {
    /// The platform with a name.
    pub open spec fn named(s: Seq<char>) -> Option<Platform> {
        if s == "macos"@ {
            Some(Platform::MacOS)
        } else if s == "ios"@ {
            Some(Platform::Ios)
        } else if s == "tvos"@ {
            Some(Platform::TvOS)
        } else {
            None
        }
    }

    /// Find the platform with a name.
    pub fn parse(s: &str) -> (r: Option<Platform>)
        ensures
            r == Platform::named(s@),
    {
        let name: Vec<char> = to_chars(s);
        if same_chars(&name, &to_chars("macos")) {
            Some(Platform::MacOS)
        } else if same_chars(&name, &to_chars("ios")) {
            Some(Platform::Ios)
        } else if same_chars(&name, &to_chars("tvos")) {
            Some(Platform::TvOS)
        } else {
            None
        }
    }

    /// The platform's number in a build version.
    pub open spec fn number(self) -> u32 {
        match self {
            Platform::MacOS => PLATFORM_MACOS,
            Platform::Ios => PLATFORM_IOS,
            Platform::TvOS => PLATFORM_TVOS,
        }
    }

    /// The platform's number in a build version.
    pub fn code(self) -> (r: u32)
        ensures
            r == self.number(),
    {
        match self {
            Platform::MacOS => PLATFORM_MACOS,
            Platform::Ios => PLATFORM_IOS,
            Platform::TvOS => PLATFORM_TVOS,
        }
    }
}

/// The architecture of a format that holds only one: x86-64 unless another is asked for.
pub open spec fn one_arch(arches: Seq<Arch>) -> Result<Arch, StubError> {
    if arches.len() > 1 {
        Err(StubError::MultipleArches)
    } else if arches.len() == 1 {
        Ok(arches[0])
    } else {
        Ok(Arch::X86_64)
    }
}

/// Find the architecture of a format that holds only one.
pub fn single_arch(_format: Format, arches: &[Arch]) -> (r: Result<Arch, StubError>)
    ensures
        r == one_arch(arches@),
{
    if arches.len() > 1 {
        return Err(StubError::MultipleArches);
    }
    if arches.len() == 1 {
        Ok(arches[0])
    } else {
        Ok(Arch::X86_64)
    }
}

/// The `i`-th number of a version; 0 where it is missing or is none.
pub open spec fn version_part(parts: Seq<Seq<char>>, i: int) -> u32 {
    if i < parts.len() {
        match parsed_u32(parts[i]) {
            Some(v) => v,
            None => 0,
        }
    } else {
        0
    }
}

/// The packed form of a version such as `11.0`.
pub open spec fn version_of(s: Seq<char>) -> Result<u32, StubError> {
    let parts = split_at_char(s, '.');
    match parsed_u32(parts[0]) {
        None => Err(StubError::BadVersion),
        Some(major) => if major <= 0xffff && version_part(parts, 1) <= 0xff && version_part(
            parts,
            2,
        ) <= 0xff {
            Ok((major * 0x1_0000 + version_part(parts, 1) * 0x100 + version_part(parts, 2)) as u32)
        } else {
            Err(StubError::BadVersion)
        },
    }
}

fn read_part(parts: &Vec<Vec<char>>, i: usize) -> (r: u32)
    ensures
        r == version_part(rows(parts@), i as int),
{
    if i < parts.len() {
        match parse_u32(&parts[i]) {
            Some(v) => v,
            None => 0,
        }
    } else {
        0
    }
}

/// Read a version.
pub fn parse_version(s: &str) -> (r: Result<u32, StubError>)
    ensures
        r == version_of(s@),
{
    let chars: Vec<char> = to_chars(s);
    let parts: Vec<Vec<char>> = split_chars(&chars, '.');
    assert(rows(parts@).len() == parts@.len());
    assert(split_at_char(s@, '.').len() >= 1);
    let major: u32 = match parse_u32(&parts[0]) {
        Some(v) => v,
        None => return Err(StubError::BadVersion),
    };
    let minor: u32 = read_part(&parts, 1);
    let patch: u32 = read_part(&parts, 2);
    if major <= 0xffff && minor <= 0xff && patch <= 0xff {
        Ok(major * 0x1_0000 + minor * 0x100 + patch)
    } else {
        Err(StubError::BadVersion)
    }
}

/// The architectures of a Mach-O stub. Only macOS ships x86_64; embedded platforms are arm64-only.
pub open spec fn macho_arches(arches: Seq<Arch>, platform: Platform) -> Seq<Arch> {
    if arches.len() > 0 {
        arches
    } else if platform == Platform::MacOS {
        seq![Arch::Arm64, Arch::X86_64]
    } else {
        seq![Arch::Arm64]
    }
}

fn find_arches(arches: &[Arch], platform: Platform) -> (r: Vec<Arch>)
    ensures
        r@ == macho_arches(arches@, platform),
{
    let mut r: Vec<Arch> = Vec::new();
    if arches.len() > 0 {
        let mut i: usize = 0;
        while i < arches.len()
            invariant
                i <= arches@.len(),
                r@ == arches@.subrange(0, i as int),
            decreases arches@.len() - i,
        {
            r.push(arches[i]);
            assert(r@ =~= arches@.subrange(0, i + 1));
            i = i + 1;
        }
        assert(r@ =~= arches@);
    } else {
        r.push(Arch::Arm64);
        match platform {
            Platform::MacOS => {
                r.push(Arch::X86_64);
                assert(r@ =~= seq![Arch::Arm64, Arch::X86_64]);
            },
            _ => {
                assert(r@ =~= seq![Arch::Arm64]);
            },
        }
    }
    r
}

/// The slices of the architectures.
pub open spec fn slices_of(
    arches: Seq<Arch>,
    platform: u32,
    min_os: u32,
    trie: Seq<u8>,
    names: Seq<Seq<u8>>,
) -> Seq<Seq<u8>> {
    Seq::new(
        arches.len(),
        |i: int|
            macho_slice_of(
                arches[i],
                platform,
                min_os,
                trie,
                macho_symbols(names),
                string_table(names),
            ),
    )
}

/// Whether `data` is the Mach-O stub of the names: their trie and their symbols in one slice for
/// each architecture, and several slices in a universal binary.
pub open spec fn is_macho_stub(
    data: Seq<u8>,
    names: Seq<Seq<u8>>,
    arches: Seq<Arch>,
    platform: u32,
    min_os: u32,
) -> bool {
    exists|trie: Seq<u8>| #[trigger]
        is_trie_of(trie, names) && {
            let slices = slices_of(arches, platform, min_os, trie, names);
            data == (if slices.len() == 1 {
                slices[0]
            } else {
                fat_of(arches, slices)
            })
        }
}

/// Whether a Mach-O stub of the names cannot be held.
pub open spec fn macho_too_large(
    names: Seq<Seq<u8>>,
    arches: Seq<Arch>,
    platform: u32,
    min_os: u32,
) -> bool {
    let nodes = tree_of(names);
    ||| nodes_room(nodes, nodes.len() as int) > usize::MAX
    ||| exists|trie: Seq<u8>| #[trigger]
        is_trie_of(trie, names) && (slice_layout(
            trie.len() as int,
            macho_symbols(names).len() as int,
            string_table(names).len() as int,
        ).size + PAGE_SIZE > usize::MAX || fat_offset(
            slices_of(arches, platform, min_os, trie, names),
            arches.len() as int,
        ) > usize::MAX)
}

/// Write the Mach-O stub of the names.
pub fn macho_stub(names: &[Vec<u8>], arches: &[Arch], platform: u32, min_os: u32) -> (r: Option<
    Vec<u8>,
>)
    ensures
        match r {
            Some(data) => is_macho_stub(data@, byte_rows(names@), arches@, platform, min_os),
            None => macho_too_large(byte_rows(names@), arches@, platform, min_os),
        },
{
    let ghost all = byte_rows(names@);
    let trie: Vec<u8> = match export_trie(names) {
        Some(trie) => trie,
        None => return None,
    };
    let (symtab, strtab) = symbol_table(names);
    if !slice_fits(trie.len(), symtab.len(), strtab.len()) {
        return None;
    }
    let mut slices: Vec<Vec<u8>> = Vec::new();
    let mut i: usize = 0;
    while i < arches.len()
        invariant
            i <= arches@.len(),
            slices@.len() == i,
            symtab@ == macho_symbols(all),
            strtab@ == string_table(all),
            slice_layout(trie@.len() as int, symtab@.len() as int, strtab@.len() as int).size
                + PAGE_SIZE <= usize::MAX,
            forall|k: int|
                0 <= k < i ==> (#[trigger] slices@[k])@ == slices_of(
                    arches@,
                    platform,
                    min_os,
                    trie@,
                    all,
                )[k],
        decreases arches@.len() - i,
    {
        slices.push(macho_slice(arches[i], platform, min_os, &trie, &symtab, &strtab));
        i = i + 1;
    }
    assert(byte_rows(slices@) =~= slices_of(arches@, platform, min_os, trie@, all));
    if slices.len() == 1 {
        assert(slices@[0]@ == byte_rows(slices@)[0]);
        return slices.pop();
    }
    fat_binary(arches, &slices)
}

/// The machine number of an architecture in ELF.
pub open spec fn elf_machine(arch: Arch) -> u16 {
    match arch {
        Arch::X86_64 => EM_X86_64,
        Arch::Arm64 => EM_AARCH64,
    }
}

/// What a stub of names turns out to be: an ELF stub needs a SONAME.
pub open spec fn is_elf_result(
    names: Seq<Seq<u8>>,
    soname: Option<Seq<char>>,
    arches: Seq<Arch>,
    r: Result<Seq<u8>, StubError>,
) -> bool {
    match (soname, one_arch(arches)) {
        (None, _) => r == Err::<Seq<u8>, StubError>(StubError::NoSoname),
        (_, Err(e)) => r == Err::<Seq<u8>, StubError>(e),
        (Some(name), Ok(arch)) => if elf_stub_size(names, encode_utf8(name)) > usize::MAX {
            r == Err::<Seq<u8>, StubError>(StubError::TooLarge)
        } else {
            r == Ok::<Seq<u8>, StubError>(
                elf_stub_of(names, encode_utf8(name), elf_machine(arch)),
            )
        },
    }
}

/// Write the ELF stub of the names.
pub fn write_elf(names: &[Vec<u8>], soname: &Option<String>, arches: &[Arch]) -> (r: Result<
    Vec<u8>,
    StubError,
>)
    ensures
        is_elf_result(
            byte_rows(names@),
            text_of(*soname),
            arches@,
            match r {
                Ok(data) => Ok(data@),
                Err(e) => Err(e),
            },
        ),
{
    let name: &String = match soname {
        Some(name) => name,
        None => return Err(StubError::NoSoname),
    };
    let machine: u16 = match single_arch(Format::Elf, arches)? {
        Arch::X86_64 => EM_X86_64,
        Arch::Arm64 => EM_AARCH64,
    };
    match elf_stub(names, name.as_str().as_bytes(), machine) {
        Some(data) => {
            let size: usize = data.len();
            proof {
                lemma_elf_stub_size(byte_rows(names@), encode_utf8(name@), machine);
                assert(data@.len() == size);
            }
            Ok(data)
        },
        None => Err(StubError::TooLarge),
    }
}

/// The text of an optional string.
pub open spec fn text_of(s: Option<String>) -> Option<Seq<char>> {
    match s {
        Some(s) => Some(s@),
        None => None,
    }
}

/// What a stub holds: its bytes, the number of its symbols and the number of its architectures.
pub open spec fn stub_parts(r: Result<Stub, StubError>) -> Result<(Seq<u8>, int, int), StubError> {
    match r {
        Ok(stub) => Ok((stub.data@, stub.exports as int, stub.arches as int)),
        Err(e) => Err(e),
    }
}

/// Whether the file begins like an ELF file.
pub open spec fn is_elf_file(data: Seq<u8>) -> bool {
    data.len() >= 4 && data.subrange(0, 4) == seq![0x7fu8, 0x45, 0x4c, 0x46]
}

/// Whether `r` is the outcome of an ELF stub of the names that were found.
pub open spec fn is_elf_outcome(
    args: Args,
    names: Result<Seq<Seq<u8>>, StubError>,
    r: Result<(Seq<u8>, int, int), StubError>,
) -> bool {
    match names {
        Err(e) => r == Err::<(Seq<u8>, int, int), StubError>(e),
        Ok(names) => match r {
            Ok((data, exports, arches)) => is_elf_result(
                names,
                text_of(args.soname),
                args.arch@,
                Ok(data),
            ) && exports == names.len() && arches == 1,
            Err(e) => is_elf_result(names, text_of(args.soname), args.arch@, Err(e)),
        },
    }
}

/// Whether `r` is the outcome of a Mach-O stub of the names that were found.
pub open spec fn is_macho_outcome(
    args: Args,
    names: Result<Seq<Seq<u8>>, StubError>,
    r: Result<(Seq<u8>, int, int), StubError>,
) -> bool {
    let wanted = macho_arches(args.arch@, args.platform);
    match (names, version_of(args.min_os@)) {
        (Err(e), _) => r == Err::<(Seq<u8>, int, int), StubError>(e),
        (_, Err(e)) => r == Err::<(Seq<u8>, int, int), StubError>(e),
        (Ok(names), Ok(min_os)) => match r {
            Ok((data, exports, arches)) => is_macho_stub(
                data,
                names,
                wanted,
                args.platform.number(),
                min_os,
            ) && exports == names.len() && arches == wanted.len(),
            Err(e) => e == StubError::TooLarge && macho_too_large(
                names,
                wanted,
                args.platform.number(),
                min_os,
            ),
        },
    }
}

/// Whether `r` is the outcome of a stub of an export surface.
pub open spec fn is_outcome(
    args: Args,
    data: Seq<u8>,
    r: Result<(Seq<u8>, int, int), StubError>,
) -> bool {
    if args.format != Format::Macho && args.arch@.len() > 1 {
        r == Err::<(Seq<u8>, int, int), StubError>(StubError::MultipleArches)
    } else if args.format == Format::Elf && is_elf_file(data) {
        is_elf_outcome(args, exported_names(file_dynamic_symbols(data)), r)
    } else if !valid_utf8(data) {
        r == Err::<(Seq<u8>, int, int), StubError>(StubError::NotText)
    } else {
        let text = decode_utf8(data);
        match args.format {
            Format::Implib => if !is_def_text(text) {
                r == Err::<(Seq<u8>, int, int), StubError>(StubError::NotDef)
            } else {
                match implib_of(text, one_arch(args.arch@)->Ok_0, text_of(args.dll_name)) {
                    Err(e) => r == Err::<(Seq<u8>, int, int), StubError>(e),
                    Ok((bytes, imports)) => r == Ok::<(Seq<u8>, int, int), StubError>(
                        (bytes, imports as int, 1),
                    ),
                }
            },
            Format::Macho => is_macho_outcome(args, symbol_list_of(text), r),
            Format::Elf => is_elf_outcome(args, symbol_list_of(text), r),
        }
    }
}

fn make_elf(args: &Args, names: Result<Vec<Vec<u8>>, StubError>) -> (r: Result<Stub, StubError>)
    ensures
        ({
            let found = match names {
                Ok(names) => Ok(byte_rows(names@)),
                Err(e) => Err(e),
            };
            is_elf_outcome(*args, found, stub_parts(r))
        }),
{
    let names: Vec<Vec<u8>> = names?;
    let data: Vec<u8> = write_elf(&names, &args.soname, &args.arch)?;
    Ok(Stub { data, exports: names.len(), arches: 1 })
}

fn write_macho(args: &Args, text: &str) -> (r: Result<Stub, StubError>)
    ensures
        is_macho_outcome(*args, symbol_list_of(text@), stub_parts(r)),
{
    let names: Vec<Vec<u8>> = parse_symbol_list(text)?;
    let min_os: u32 = parse_version(&args.min_os)?;
    let arches: Vec<Arch> = find_arches(&args.arch, args.platform);
    match macho_stub(&names, &arches, args.platform.code(), min_os) {
        Some(data) => Ok(Stub { data, exports: names.len(), arches: arches.len() }),
        None => Err(StubError::TooLarge),
    }
}

fn write_implib(args: &Args, text: &str) -> (r: Result<Stub, StubError>)
    requires
        args.format == Format::Implib,
        args.arch@.len() <= 1,
        valid_utf8(encode_utf8(text@)),
    ensures
        is_outcome(*args, encode_utf8(text@), stub_parts(r)),
{
    broadcast use encode_utf8_decode_utf8;

    if !is_def(text) {
        return Err(StubError::NotDef);
    }
    let arch: Arch = single_arch(args.format, &args.arch)?;
    let (data, exports) = generate_implib(text, arch, &args.dll_name)?;
    Ok(Stub { data, exports, arches: 1 })
}

/// Generate the stub of an export surface that was read from a file.
pub fn run(args: &Args, data: Vec<u8>) -> (r: Result<Stub, StubError>)
    ensures
        is_outcome(*args, data@, stub_parts(r)),
{
    broadcast use encode_utf8_decode_utf8;

    match args.format {
        Format::Macho => {},
        _ => {
            let _arch: Arch = single_arch(args.format, &args.arch)?;
        },
    }
    let elf: bool = data.len() >= 4 && data[0] == 0x7f && data[1] == 0x45 && data[2] == 0x4c
        && data[3] == 0x46;
    proof {
        if data@.len() >= 4 {
            let magic = data@.subrange(0, 4);
            assert(magic[0] == data@[0] && magic[1] == data@[1] && magic[2] == data@[2] && magic[3]
                == data@[3]);
            if elf {
                assert(magic =~= seq![0x7fu8, 0x45, 0x4c, 0x46]);
            }
        }
        assert(elf == is_elf_file(data@));
    }
    if elf {
        match args.format {
            Format::Elf => {
                return make_elf(args, elf_dynamic_symbols(&data));
            },
            _ => {},
        }
    }
    let text: String = match utf8_string(data) {
        Some(text) => text,
        None => return Err(StubError::NotText),
    };
    match args.format {
        Format::Implib => write_implib(args, &text),
        Format::Macho => write_macho(args, &text),
        Format::Elf => make_elf(args, parse_symbol_list(&text)),
    }
}

/// A module definition whose lines were cut before their first equals signs, and which still is one,
/// gives the same stub or the same error.
pub proof fn law_cut_definition_gives_the_same_stub(
    args: Args,
    data: Seq<u8>,
    cut: Seq<u8>,
    r: Result<(Seq<u8>, int, int), StubError>,
    again: Result<(Seq<u8>, int, int), StubError>,
)
    requires
        args.format == Format::Implib,
        valid_utf8(data),
        valid_utf8(cut),
        is_def_text(decode_utf8(data)),
        is_def_text(decode_utf8(cut)),
        text_lines(decode_utf8(cut)) == cut_lines(text_lines(decode_utf8(data))),
        is_outcome(args, data, r),
        is_outcome(args, cut, again),
    ensures
        again == r,
{
    law_forward_imports_as_its_name(
        decode_utf8(data),
        decode_utf8(cut),
        one_arch(args.arch@)->Ok_0,
        text_of(args.dll_name),
    );
}

} // verus!
