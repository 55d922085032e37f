//! Curated export surface (`-exported_symbols_list` or ELF version script) of built Mach-O or ELF
//! objects.

pub mod laws;
pub mod listing;

use vstd::prelude::*;
use vstd::utf8::*;
use crate::bytes::{
    begins, begins_any, byte_rows, bytes_begin, bytes_begin_any, copy_bytes, push_bytes,
    same_bytes,
};
use crate::cmd::def::{self, all_slashed, is_included, norm_all};
use crate::order::{sorted_distinct, sorted_form};
use crate::text::{same_chars, string_from_chars, to_chars};
use crate::util::file::texts;
use crate::util::objfile::{
    archive_members, file_format, file_kind, file_symbols, is_archive, looks_like_archive,
    read_format, read_kind, read_members, read_symbols, symbol_views, ArchiveFault, Format,
    ImageKind, SymbolFact, SymbolView,
};

verus! {

/// How the names are written down.
#[derive(Clone, Copy, Debug, PartialEq, Eq, Structural)]
pub enum OutputFormat {
    /// One symbol per line, for `-exported_symbols_list`.
    List,
    /// ELF version script.
    VersionScript,
}

impl OutputFormat {
    /// The format with a name.
    pub open spec fn named(s: Seq<char>) -> Option<OutputFormat> {
        if s == "list"@ {
            Some(OutputFormat::List)
        } else if s == "version-script"@ {
            Some(OutputFormat::VersionScript)
        } else {
            None
        }
    }

    /// Find the format with a name.
    pub fn parse(s: &str) -> (r: Option<OutputFormat>)
        ensures
            r == OutputFormat::named(s@),
    {
        let name: Vec<char> = to_chars(s);
        if same_chars(&name, &to_chars("list")) {
            Some(OutputFormat::List)
        } else if same_chars(&name, &to_chars("version-script")) {
            Some(OutputFormat::VersionScript)
        } else {
            None
        }
    }
}

/// What to generate.
#[derive(PartialEq, Eq, Debug)]
pub struct Args {
    /// Objects and archives to scan; a response file is prefixed with `@`.
    pub inputs: Vec<String>,
    /// Output symbol list file.
    pub out: String,
    /// Static libraries to scan for C-only (unmangled) exports.
    pub sdk_lib: Vec<String>,
    /// Only scan objects whose path contains one of these.
    pub includes: Vec<String>,
    /// Skip objects whose path contains one of these.
    pub excludes: Vec<String>,
    /// Exclude symbols that begin with one of these.
    pub exclude_sym: Vec<String>,
    /// Names (or globs) to add verbatim, bypassing the scan.
    pub extra_sym: Vec<String>,
    pub format: OutputFormat,
}

/// Why no export surface can be made; the number is the place of the file among those scanned.
#[derive(Clone, Copy, Debug, PartialEq, Eq, Structural)]
pub enum ExportsError {
    /// There is no input object or archive.
    NoInputs,
    /// The file is not a Mach-O or ELF object or archive.
    NotObject(usize),
    /// The object does not parse.
    BadObject(usize),
    /// The archive does not parse.
    BadArchive(usize),
    /// A member of the archive cannot be read.
    BadMember(usize),
}

/// Compiler and runtime symbols that are never part of the exported ABI.
///
/// On Mach-O every listed symbol becomes an initial undefined at link time, so entries must exist in
/// the final image (this also forces extraction of listed archive members, matching PE `.def`
/// semantics). ELF version scripts are filters instead: names that don't exist are silently ignored
/// and force nothing.
pub open spec fn is_skipped(macho: bool, name: Seq<u8>) -> bool {
    if macho {
        // ObjC class and ivar metadata, sanitizer runtimes, instrumentation, assembler-local labels
        ||| begins(name, encode_utf8("_OBJC_"@))
        ||| begins(name, encode_utf8("__OBJC_"@))
        ||| begins(name, encode_utf8("___asan"@))
        ||| begins(name, encode_utf8("___lsan"@))
        ||| begins(name, encode_utf8("___ubsan"@))
        ||| begins(name, encode_utf8("___tsan"@))
        ||| begins(name, encode_utf8("___sanitizer"@))
        ||| begins(name, encode_utf8("_llvm."@))
        ||| begins(name, encode_utf8("___llvm"@))
        ||| begins(name, encode_utf8("l_"@))
        ||| begins(name, encode_utf8("L_"@))
        ||| name == encode_utf8("_main"@)
        ||| name == encode_utf8("_SDL_main"@)
        ||| name == encode_utf8("__mh_execute_header"@)
    } else {
        // sanitizer runtimes, instrumentation, assembler-local labels
        ||| begins(name, encode_utf8("__asan"@))
        ||| begins(name, encode_utf8("__lsan"@))
        ||| begins(name, encode_utf8("__ubsan"@))
        ||| begins(name, encode_utf8("__tsan"@))
        ||| begins(name, encode_utf8("__sanitizer"@))
        ||| begins(name, encode_utf8("llvm."@))
        ||| begins(name, encode_utf8("__llvm"@))
        ||| begins(name, encode_utf8(".L"@))
        ||| name == encode_utf8("main"@)
    }
}

/// Whether the symbol is never part of the exported ABI.
pub fn is_skip_symbol(macho: bool, name: &[u8]) -> (r: bool)
    ensures
        r == is_skipped(macho, name@),
{
    if macho {
        bytes_begin(name, "_OBJC_".as_bytes()) || bytes_begin(name, "__OBJC_".as_bytes())
            || bytes_begin(name, "___asan".as_bytes()) || bytes_begin(name, "___lsan".as_bytes())
            || bytes_begin(name, "___ubsan".as_bytes()) || bytes_begin(name, "___tsan".as_bytes())
            || bytes_begin(name, "___sanitizer".as_bytes()) || bytes_begin(
            name,
            "_llvm.".as_bytes(),
        ) || bytes_begin(name, "___llvm".as_bytes()) || bytes_begin(name, "l_".as_bytes())
            || bytes_begin(name, "L_".as_bytes()) || same_bytes(name, "_main".as_bytes())
            || same_bytes(name, "_SDL_main".as_bytes()) || same_bytes(
            name,
            "__mh_execute_header".as_bytes(),
        )
    } else {
        bytes_begin(name, "__asan".as_bytes()) || bytes_begin(name, "__lsan".as_bytes())
            || bytes_begin(name, "__ubsan".as_bytes()) || bytes_begin(name, "__tsan".as_bytes())
            || bytes_begin(name, "__sanitizer".as_bytes()) || bytes_begin(name, "llvm.".as_bytes())
            || bytes_begin(name, "__llvm".as_bytes()) || bytes_begin(name, ".L".as_bytes())
            || same_bytes(name, "main".as_bytes())
    }
}

/// What becomes of a symbol.
#[derive(Clone, Copy, Debug, PartialEq, Eq, Structural)]
pub enum Verdict {
    /// It is exported.
    Export,
    /// It is no global definition, or has no name.
    NotExportable,
    /// Weak definitions (inline functions, templates, vtables) exist in every image.
    Weak,
    /// Private extern (hidden visibility) symbols cannot be exported.
    Hidden,
    /// It is mangled, in a library that is scanned for C names.
    Mangled,
    /// Its name is one that is skipped.
    Name,
}

/// What becomes of a symbol of an object.
pub open spec fn verdict(
    s: SymbolView,
    macho: bool,
    c_only: bool,
    exclude: Seq<String>,
) -> Verdict {
    if !s.definition || !s.global {
        Verdict::NotExportable
    } else if s.weak {
        Verdict::Weak
    } else if !s.dynamic {
        Verdict::Hidden
    } else {
        match s.name {
            None => Verdict::NotExportable,
            Some(name) => if name.len() == 0 {
                Verdict::NotExportable
            } else if c_only && begins(
                name,
                if macho {
                    encode_utf8("__Z"@)
                } else {
                    encode_utf8("_Z"@)
                },
            ) {
                Verdict::Mangled
            } else if is_skipped(macho, name) || begins_any(name, exclude) {
                Verdict::Name
            } else {
                Verdict::Export
            },
        }
    }
}

/// Decide what becomes of a symbol.
pub fn classify(s: &SymbolFact, macho: bool, c_only: bool, exclude: &[String]) -> (r: Verdict)
    ensures
        r == verdict(s@, macho, c_only, exclude@),
{
    if !s.definition || !s.global {
        return Verdict::NotExportable;
    }
    if s.weak {
        return Verdict::Weak;
    }
    if !s.dynamic {
        return Verdict::Hidden;
    }
    match &s.name {
        None => Verdict::NotExportable,
        Some(name) => {
            if name.len() == 0 {
                return Verdict::NotExportable;
            }
            let mangled: bool = if macho {
                bytes_begin(name, "__Z".as_bytes())
            } else {
                bytes_begin(name, "_Z".as_bytes())
            };
            if c_only && mangled {
                Verdict::Mangled
            } else if is_skip_symbol(macho, name) || bytes_begin_any(name, exclude) {
                Verdict::Name
            } else {
                Verdict::Export
            }
        },
    }
}

/// The names that the first `n` symbols of an object export.
pub open spec fn names_exported(
    symbols: Seq<SymbolView>,
    macho: bool,
    c_only: bool,
    exclude: Seq<String>,
    n: int,
) -> Seq<Seq<u8>>
    decreases n,
{
    if n <= 0 {
        Seq::empty()
    } else {
        let before = names_exported(symbols, macho, c_only, exclude, n - 1);
        if verdict(symbols[n - 1], macho, c_only, exclude) == Verdict::Export {
            before.push(symbols[n - 1].name->Some_0)
        } else {
            before
        }
    }
}

/// Find the names that the symbols of an object export.
pub fn select_names(symbols: &[SymbolFact], macho: bool, c_only: bool, exclude: &[String]) -> (r:
    Vec<Vec<u8>>)
    ensures
        byte_rows(r@) == names_exported(
            symbol_views(symbols@),
            macho,
            c_only,
            exclude@,
            symbols@.len() as int,
        ),
{
    let ghost views = symbol_views(symbols@);
    let mut found: Vec<Vec<u8>> = Vec::new();
    let mut i: usize = 0;
    assert(byte_rows(found@) =~= Seq::empty());
    while i < symbols.len()
        invariant
            i <= symbols@.len(),
            views == symbol_views(symbols@),
            byte_rows(found@) == names_exported(views, macho, c_only, exclude@, i as int),
        decreases symbols@.len() - i,
    {
        let s: &SymbolFact = &symbols[i];
        assert(views[i as int] == s@);
        let ghost before = byte_rows(found@);
        match classify(s, macho, c_only, exclude) {
            Verdict::Export => {
                match &s.name {
                    Some(name) => {
                        found.push(copy_bytes(name));
                        assert(byte_rows(found@) =~= before.push(name@));
                    },
                    None => {},
                }
            },
            _ => {},
        }
        i = i + 1;
    }
    found
}

/// The names that an object exports; nothing where it does not parse.
pub open spec fn object_names(data: Seq<u8>, c_only: bool, exclude: Seq<String>) -> Option<
    Seq<Seq<u8>>,
> {
    match (file_format(data), file_symbols(data)) {
        (Some(format), Some(symbols)) => Some(
            names_exported(
                symbols,
                format == Format::MachO,
                c_only,
                exclude,
                symbols.len() as int,
            ),
        ),
        _ => None,
    }
}

/// Find the names that an object exports.
pub fn scan_object(data: &[u8], c_only: bool, exclude: &[String]) -> (r: Option<Vec<Vec<u8>>>)
    ensures
        match r {
            Some(names) => object_names(data@, c_only, exclude@) == Some(byte_rows(names@)),
            None => object_names(data@, c_only, exclude@) is None,
        },
{
    let macho: bool = match read_format(data) {
        Some(Format::MachO) => true,
        Some(_) => false,
        None => return None,
    };
    match read_symbols(data) {
        Some(symbols) => Some(select_names(&symbols, macho, c_only, exclude)),
        None => None,
    }
}

/// The names that the first `n` members of an archive export. Symbol tables and empty members
/// aren't objects, and are passed over.
pub open spec fn member_names(
    members: Seq<Seq<u8>>,
    c_only: bool,
    exclude: Seq<String>,
    n: int,
) -> Seq<Seq<u8>>
    decreases n,
{
    if n <= 0 {
        Seq::empty()
    } else {
        member_names(members, c_only, exclude, n - 1) + match object_names(
            members[n - 1],
            c_only,
            exclude,
        ) {
            Some(names) => names,
            None => Seq::empty(),
        }
    }
}

/// The names that an object or an archive exports.
pub open spec fn path_names(data: Seq<u8>, at: usize, c_only: bool, exclude: Seq<String>) -> Result<
    Seq<Seq<u8>>,
    ExportsError,
> {
    if is_archive(data) {
        match archive_members(data) {
            Err(ArchiveFault::Parse) => Err(ExportsError::BadArchive(at)),
            Err(ArchiveFault::Member) => Err(ExportsError::BadMember(at)),
            Ok(members) => Ok(member_names(members, c_only, exclude, members.len() as int)),
        }
    } else {
        match file_kind(data) {
            Some(ImageKind::MachO32) | Some(ImageKind::MachO64) | Some(ImageKind::Elf32) | Some(
                ImageKind::Elf64,
            ) => match object_names(data, c_only, exclude) {
                Some(names) => Ok(names),
                None => Err(ExportsError::BadObject(at)),
            },
            _ => Err(ExportsError::NotObject(at)),
        }
    }
}

/// Append the names of a list.
fn append_names(out: &mut Vec<Vec<u8>>, names: Vec<Vec<u8>>)
    ensures
        byte_rows(final(out)@) == byte_rows(old(out)@) + byte_rows(names@),
{
    let ghost added = names@;
    let mut rest: Vec<Vec<u8>> = names;
    out.append(&mut rest);
    assert(byte_rows(out@) =~= byte_rows(old(out)@) + byte_rows(added));
}

/// Find the names that an object or an archive exports.
pub fn scan_path(data: &[u8], at: usize, c_only: bool, exclude: &[String]) -> (r: Result<
    Vec<Vec<u8>>,
    ExportsError,
>)
    ensures
        match r {
            Ok(names) => path_names(data@, at, c_only, exclude@) == Ok::<
                Seq<Seq<u8>>,
                ExportsError,
            >(byte_rows(names@)),
            Err(e) => path_names(data@, at, c_only, exclude@) == Err::<
                Seq<Seq<u8>>,
                ExportsError,
            >(e),
        },
{
    if looks_like_archive(data) {
        let members: Vec<Vec<u8>> = match read_members(data) {
            Ok(members) => members,
            Err(ArchiveFault::Parse) => return Err(ExportsError::BadArchive(at)),
            Err(ArchiveFault::Member) => return Err(ExportsError::BadMember(at)),
        };
        let ghost all = byte_rows(members@);
        let mut found: Vec<Vec<u8>> = Vec::new();
        let mut i: usize = 0;
        assert(byte_rows(found@) =~= Seq::empty());
        while i < members.len()
            invariant
                i <= members@.len(),
                all == byte_rows(members@),
                byte_rows(found@) == member_names(all, c_only, exclude@, i as int),
            decreases members@.len() - i,
        {
            assert(all[i as int] == members@[i as int]@);
            let ghost before = byte_rows(found@);
            match scan_object(&members[i], c_only, exclude) {
                Some(names) => {
                    append_names(&mut found, names);
                },
                None => {
                    assert(before =~= before + Seq::<Seq<u8>>::empty());
                },
            }
            i = i + 1;
        }
        return Ok(found);
    }
    match read_kind(data) {
        Some(ImageKind::MachO32) | Some(ImageKind::MachO64) | Some(ImageKind::Elf32) | Some(
            ImageKind::Elf64,
        ) => match scan_object(data, c_only, exclude) {
            Some(names) => Ok(names),
            None => Err(ExportsError::BadObject(at)),
        },
        _ => Err(ExportsError::NotObject(at)),
    }
}

/// Whether a path is scanned: no excluded part stands in it and, where parts are asked for, one of
/// these does, however the slashes of the path and of the parts lean. A module definition file takes
/// its objects by the same filter.
pub fn path_included(path: &str, includes: &[String], excludes: &[String]) -> (r: bool)
    ensures
        r == is_included(
            path@,
            all_slashed(texts(includes@)),
            all_slashed(texts(excludes@)),
        ),
{
    def::path_included(path, &norm_all(includes), &norm_all(excludes))
}

/// The paths among the first `n` that are scanned.
pub open spec fn paths_included(
    paths: Seq<Seq<char>>,
    includes: Seq<Seq<char>>,
    excludes: Seq<Seq<char>>,
    n: int,
) -> Seq<Seq<char>>
    decreases n,
{
    if n <= 0 {
        Seq::empty()
    } else if is_included(paths[n - 1], includes, excludes) {
        paths_included(paths, includes, excludes, n - 1).push(paths[n - 1])
    } else {
        paths_included(paths, includes, excludes, n - 1)
    }
}

/// Find the paths that are scanned among the inputs.
pub fn select_inputs(inputs: &[String], args: &Args) -> (r: Result<Vec<String>, ExportsError>)
    ensures
        match r {
            Ok(paths) => inputs@.len() > 0 && texts(paths@) == paths_included(
                texts(inputs@),
                all_slashed(texts(args.includes@)),
                all_slashed(texts(args.excludes@)),
                inputs@.len() as int,
            ),
            Err(e) => inputs@.len() == 0 && e == ExportsError::NoInputs,
        },
{
    if inputs.len() == 0 {
        return Err(ExportsError::NoInputs);
    }
    let ghost all = texts(inputs@);
    let mut out: Vec<String> = Vec::new();
    let mut i: usize = 0;
    assert(texts(out@) =~= Seq::empty());
    while i < inputs.len()
        invariant
            i <= inputs@.len(),
            all == texts(inputs@),
            texts(out@) == paths_included(
                all,
                all_slashed(texts(args.includes@)),
                all_slashed(texts(args.excludes@)),
                i as int,
            ),
        decreases inputs@.len() - i,
    {
        assert(all[i as int] == inputs@[i as int]@);
        if path_included(&inputs[i], &args.includes, &args.excludes) {
            let ghost before = texts(out@);
            out.push(string_from_chars(&to_chars(&inputs[i])));
            assert(texts(out@) =~= before.push(all[i as int]));
        }
        i = i + 1;
    }
    Ok(out)
}

/// The names that the first `n` files export, the files numbered from `base` on; the error of the
/// first file that cannot be scanned.
pub open spec fn file_names(
    files: Seq<Seq<u8>>,
    base: int,
    c_only: bool,
    exclude: Seq<String>,
    n: int,
) -> Result<Seq<Seq<u8>>, ExportsError>
    decreases n,
{
    if n <= 0 {
        Ok(Seq::empty())
    } else {
        match file_names(files, base, c_only, exclude, n - 1) {
            Err(e) => Err(e),
            Ok(before) => match path_names(
                files[n - 1],
                (base + n - 1) as usize,
                c_only,
                exclude,
            ) {
                Err(e) => Err(e),
                Ok(names) => Ok(before + names),
            },
        }
    }
}

/// An error of one of the first files is the error of all.
proof fn lemma_file_names_error(
    files: Seq<Seq<u8>>,
    base: int,
    c_only: bool,
    exclude: Seq<String>,
    n: int,
    m: int,
)
    requires
        0 <= n <= m,
        file_names(files, base, c_only, exclude, n) is Err,
    ensures
        file_names(files, base, c_only, exclude, m) == file_names(files, base, c_only, exclude, n),
    decreases m,
{
    if n < m {
        lemma_file_names_error(files, base, c_only, exclude, n, m - 1);
    }
}

/// Append the names that the files export.
fn scan_files(
    out: &mut Vec<Vec<u8>>,
    files: &[Vec<u8>],
    base: usize,
    c_only: bool,
    exclude: &[String],
) -> (r: Result<(), ExportsError>)
    requires
        base + files@.len() <= usize::MAX,
    ensures
        match r {
            Ok(_) => file_names(
                byte_rows(files@),
                base as int,
                c_only,
                exclude@,
                files@.len() as int,
            ) matches Ok(names) && byte_rows(final(out)@) == byte_rows(old(out)@) + names,
            Err(e) => file_names(
                byte_rows(files@),
                base as int,
                c_only,
                exclude@,
                files@.len() as int,
            ) == Err::<Seq<Seq<u8>>, ExportsError>(e),
        },
{
    let ghost all = byte_rows(files@);
    let ghost before = byte_rows(out@);
    let mut i: usize = 0;
    assert(before =~= before + Seq::<Seq<u8>>::empty());
    while i < files.len()
        invariant
            i <= files@.len(),
            base + files@.len() <= usize::MAX,
            all == byte_rows(files@),
            before == byte_rows(old(out)@),
            file_names(all, base as int, c_only, exclude@, i as int) matches Ok(names)
                && byte_rows(out@) == before + names,
        decreases files@.len() - i,
    {
        assert(all[i as int] == files@[i as int]@);
        let ghost so_far = file_names(all, base as int, c_only, exclude@, i as int)->Ok_0;
        match scan_path(&files[i], base + i, c_only, exclude) {
            Ok(names) => {
                append_names(out, names);
                assert(byte_rows(out@) =~= before + (so_far + byte_rows(names@)));
            },
            Err(e) => {
                proof {
                    lemma_file_names_error(
                        all,
                        base as int,
                        c_only,
                        exclude@,
                        i + 1,
                        files@.len() as int,
                    );
                }
                return Err(e);
            },
        }
        i = i + 1;
    }
    Ok(())
}

/// The lines of the first `n` names.
pub open spec fn name_lines(names: Seq<Seq<u8>>, script: bool, n: int) -> Seq<u8>
    decreases n,
{
    if n <= 0 {
        Seq::empty()
    } else {
        name_lines(names, script, n - 1) + names[n - 1] + (if script {
            encode_utf8(";\n"@)
        } else {
            encode_utf8("\n"@)
        })
    }
}

/// The symbol list or the version script of the names.
pub open spec fn rendered(names: Seq<Seq<u8>>, format: OutputFormat) -> Seq<u8> {
    let lines = name_lines(names, format == OutputFormat::VersionScript, names.len() as int);
    match format {
        OutputFormat::List => lines,
        OutputFormat::VersionScript => encode_utf8("{\nglobal:\n"@) + lines
            + encode_utf8("local:\n*;\n};\n"@),
    }
}

/// Write the symbol list or the version script of the names.
pub fn render(names: &[Vec<u8>], format: OutputFormat) -> (r: Vec<u8>)
    ensures
        r@ == rendered(byte_rows(names@), format),
{
    let ghost all = byte_rows(names@);
    let script: bool = match format {
        OutputFormat::VersionScript => true,
        OutputFormat::List => false,
    };
    let mut out: Vec<u8> = Vec::new();
    if script {
        push_bytes(&mut out, "{\nglobal:\n".as_bytes());
    }
    let ghost head = out@;
    let mut i: usize = 0;
    assert(out@ =~= head + name_lines(all, script, 0));
    while i < names.len()
        invariant
            i <= names@.len(),
            all == byte_rows(names@),
            out@ == head + name_lines(all, script, i as int),
        decreases names@.len() - i,
    {
        assert(all[i as int] == names@[i as int]@);
        push_bytes(&mut out, &names[i]);
        if script {
            push_bytes(&mut out, ";\n".as_bytes());
        } else {
            push_bytes(&mut out, "\n".as_bytes());
        }
        assert(out@ =~= head + name_lines(all, script, i + 1));
        i = i + 1;
    }
    if script {
        push_bytes(&mut out, "local:\n*;\n};\n".as_bytes());
        assert(out@ =~= rendered(all, format));
    } else {
        assert(out@ =~= rendered(all, format));
    }
    out
}

/// The UTF-8 forms of the texts.
pub open spec fn encoded(v: Seq<String>) -> Seq<Seq<u8>> {
    Seq::new(v.len(), |i: int| encode_utf8(v[i]@))
}

/// The names of the export surface: what the objects export, what the libraries export in C, and
/// what is asked for, in order and each once.
pub open spec fn surface(objects: Seq<Seq<u8>>, libs: Seq<Seq<u8>>, args: Args) -> Result<
    Seq<Seq<u8>>,
    ExportsError,
> {
    match file_names(objects, 0, false, args.exclude_sym@, objects.len() as int) {
        Err(e) => Err(e),
        Ok(from_objects) => match file_names(
            libs,
            objects.len() as int,
            true,
            args.exclude_sym@,
            libs.len() as int,
        ) {
            Err(e) => Err(e),
            Ok(from_libs) => Ok(
                sorted_form::<Vec<u8>>(from_objects + from_libs + encoded(args.extra_sym@)),
            ),
        },
    }
}

/// Generate the export surface of the selected objects and the libraries, and count its names.
pub fn run(args: &Args, objects: &[Vec<u8>], libs: &[Vec<u8>]) -> (r: Result<
    (Vec<u8>, usize),
    ExportsError,
>)
    requires
        objects@.len() + libs@.len() <= usize::MAX,
    ensures
        match r {
            Ok((text, count)) => surface(byte_rows(objects@), byte_rows(libs@), *args) matches Ok(
                names,
            ) && text@ == rendered(names, args.format) && count == names.len(),
            Err(e) => surface(byte_rows(objects@), byte_rows(libs@), *args) == Err::<
                Seq<Seq<u8>>,
                ExportsError,
            >(e),
        },
{
    let mut found: Vec<Vec<u8>> = Vec::new();
    assert(byte_rows(found@) =~= Seq::empty());
    scan_files(&mut found, objects, 0, false, &args.exclude_sym)?;
    scan_files(&mut found, libs, objects.len(), true, &args.exclude_sym)?;
    let ghost scanned = byte_rows(found@);
    let mut i: usize = 0;
    assert(scanned =~= scanned + encoded(args.extra_sym@).subrange(0, 0));
    while i < args.extra_sym.len()
        invariant
            i <= args.extra_sym@.len(),
            byte_rows(found@) == scanned + encoded(args.extra_sym@).subrange(0, i as int),
        decreases args.extra_sym@.len() - i,
    {
        let ghost before = byte_rows(found@);
        found.push(copy_bytes(args.extra_sym[i].as_str().as_bytes()));
        proof {
            assert(byte_rows(found@) =~= before.push(encoded(args.extra_sym@)[i as int]));
            assert(byte_rows(found@) =~= scanned + encoded(args.extra_sym@).subrange(0, i + 1));
        }
        i = i + 1;
    }
    let names: Vec<Vec<u8>> = sorted_distinct(&found);
    proof {
        let extra = encoded(args.extra_sym@);
        assert(extra.subrange(0, extra.len() as int) =~= extra);
        let objs = file_names(
            byte_rows(objects@),
            0,
            false,
            args.exclude_sym@,
            objects@.len() as int,
        )->Ok_0;
        assert(Seq::<Seq<u8>>::empty() + objs =~= objs);
        assert(byte_rows(names@).len() == names@.len());
    }
    Ok((render(&names, args.format), names.len()))
}

} // verus!
