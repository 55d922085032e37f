//! What an export surface holds, symbol by symbol.

use vstd::prelude::*;
use vstd::utf8::*;
use crate::bytes::{begins, begins_any};
use crate::cmd::def::listing::lemma_contained;
use crate::cmd::manifest::listing::begins_with_one;
use crate::order::lemma_sorted_form_exists;
use crate::util::objfile::{
    archive_members, file_format, file_symbols, is_archive, Format, SymbolView,
};
use super::{
    encoded, file_names, is_skipped, member_names, name_lines, names_exported, object_names,
    path_names, rendered, surface, verdict, Args, OutputFormat, Verdict,
};

verus! {

/// How the names of compiler and runtime symbols begin in Mach-O objects: Objective-C metadata,
/// sanitizers, instrumentation, and labels.
pub open spec fn macho_prefixes() -> Seq<Seq<char>> {
    seq![
        "_OBJC_"@, "__OBJC_"@, "___asan"@, "___lsan"@, "___ubsan"@, "___tsan"@, "___sanitizer"@,
        "_llvm."@, "___llvm"@, "l_"@, "L_"@,
    ]
}

/// How they begin in ELF objects.
pub open spec fn elf_prefixes() -> Seq<Seq<char>> {
    seq![
        "__asan"@, "__lsan"@, "__ubsan"@, "__tsan"@, "__sanitizer"@, "llvm."@, "__llvm"@, ".L"@,
    ]
}

/// Whether a name is one of a compiler or a runtime, or the entry point of a program.
pub open spec fn is_runtime_name(macho: bool, name: Seq<u8>) -> bool {
    if macho {
        begins_with_one(name, macho_prefixes()) || name == encode_utf8("_main"@) || name
            == encode_utf8("_SDL_main"@) || name == encode_utf8("__mh_execute_header"@)
    } else {
        begins_with_one(name, elf_prefixes()) || name == encode_utf8("main"@)
    }
}

/// The names that are skipped are those of compilers and runtimes.
pub proof fn law_runtime_names_are_skipped(macho: bool, name: Seq<u8>)
    ensures
        is_skipped(macho, name) <==> is_runtime_name(macho, name),
{
    let p = macho_prefixes();
    let q = elf_prefixes();
    assert(p[0] == "_OBJC_"@ && p[1] == "__OBJC_"@ && p[2] == "___asan"@ && p[3] == "___lsan"@
        && p[4] == "___ubsan"@ && p[5] == "___tsan"@);
    assert(p[6] == "___sanitizer"@ && p[7] == "_llvm."@ && p[8] == "___llvm"@ && p[9] == "l_"@
        && p[10] == "L_"@);
    assert(q[0] == "__asan"@ && q[1] == "__lsan"@ && q[2] == "__ubsan"@ && q[3] == "__tsan"@ && q[4]
        == "__sanitizer"@);
    assert(q[5] == "llvm."@ && q[6] == "__llvm"@ && q[7] == ".L"@);
    if begins_with_one(name, p) && macho {
        let i = choose|i: int| 0 <= i < p.len() && begins(name, encode_utf8(#[trigger] p[i]));
        assert(is_skipped(macho, name));
    }
    if begins_with_one(name, q) && !macho {
        let i = choose|i: int| 0 <= i < q.len() && begins(name, encode_utf8(#[trigger] q[i]));
        assert(is_skipped(macho, name));
    }
}

/// Whether a symbol is exported: it is a strong global definition that other images can see, and has a
/// name that is neither one of a compiler or runtime nor excluded, and in a library that is scanned for
/// C names none that is mangled.
pub open spec fn is_exportable(
    symbol: SymbolView,
    macho: bool,
    c_only: bool,
    exclude: Seq<String>,
) -> bool {
    &&& symbol.definition
    &&& symbol.global
    &&& !symbol.weak
    &&& symbol.dynamic
    &&& symbol.name matches Some(name) && {
        &&& name.len() > 0
        &&& !is_runtime_name(macho, name)
        &&& !begins_any(name, exclude)
        &&& c_only ==> !begins(
            name,
            if macho {
                encode_utf8("__Z"@)
            } else {
                encode_utf8("_Z"@)
            },
        )
    }
}

/// An object exports exactly the symbols that are exportable.
pub proof fn law_object_exports_its_symbols(
    symbols: Seq<SymbolView>,
    macho: bool,
    c_only: bool,
    exclude: Seq<String>,
    n: int,
    name: Seq<u8>,
)
    requires
        0 <= n <= symbols.len(),
    ensures
        names_exported(symbols, macho, c_only, exclude, n).contains(name) <==> exists|i: int|
            0 <= i < n && #[trigger] is_exportable(symbols[i], macho, c_only, exclude)
                && symbols[i].name == Some(name),
    decreases n,
{
    if n > 0 {
        let before = names_exported(symbols, macho, c_only, exclude, n - 1);
        let all = names_exported(symbols, macho, c_only, exclude, n);
        let s = symbols[n - 1];
        law_object_exports_its_symbols(symbols, macho, c_only, exclude, n - 1, name);
        if s.name is Some {
            law_runtime_names_are_skipped(macho, s.name->Some_0);
        }
        assert(is_exportable(s, macho, c_only, exclude) <==> verdict(s, macho, c_only, exclude)
            == Verdict::Export);
        if all.contains(name) {
            let k = choose|k: int| 0 <= k < all.len() && all[k] == name;
            if k < before.len() {
                assert(before[k] == name);
            } else {
                assert(is_exportable(symbols[n - 1], macho, c_only, exclude));
            }
        }
        if before.contains(name) {
            let k = choose|k: int| 0 <= k < before.len() && before[k] == name;
            assert(all[k] == name);
        }
        if is_exportable(s, macho, c_only, exclude) && s.name == Some(name) {
            assert(all[before.len() as int] == name);
        }
    }
}

/// Whether a file is a Mach-O file.
pub open spec fn is_macho(data: Seq<u8>) -> bool {
    file_format(data) == Some(Format::MachO)
}

/// Whether an object has an exportable symbol with a name.
pub open spec fn exports_name(
    data: Seq<u8>,
    c_only: bool,
    exclude: Seq<String>,
    name: Seq<u8>,
) -> bool {
    file_format(data) is Some && file_symbols(data) is Some && exists|i: int|
        0 <= i < file_symbols(data)->Some_0.len() && #[trigger] is_exportable(
            file_symbols(data)->Some_0[i],
            is_macho(data),
            c_only,
            exclude,
        ) && file_symbols(data)->Some_0[i].name == Some(name)
}

proof fn lemma_object(data: Seq<u8>, c_only: bool, exclude: Seq<String>, name: Seq<u8>)
    ensures
        exports_name(data, c_only, exclude, name) <==> (object_names(
            data,
            c_only,
            exclude,
        ) matches Some(names) && names.contains(name)),
{
    if file_format(data) is Some && file_symbols(data) is Some {
        let symbols = file_symbols(data)->Some_0;
        law_object_exports_its_symbols(
            symbols,
            is_macho(data),
            c_only,
            exclude,
            symbols.len() as int,
            name,
        );
    }
}

/// Whether a file exports a name: as an object, or an archive by one of its members.
pub open spec fn file_exports_name(
    data: Seq<u8>,
    c_only: bool,
    exclude: Seq<String>,
    name: Seq<u8>,
) -> bool {
    if is_archive(data) {
        archive_members(data) matches Ok(members) && exists|m: int|
            0 <= m < members.len() && exports_name(#[trigger] members[m], c_only, exclude, name)
    } else {
        exports_name(data, c_only, exclude, name)
    }
}

proof fn lemma_members(
    members: Seq<Seq<u8>>,
    c_only: bool,
    exclude: Seq<String>,
    n: int,
    name: Seq<u8>,
)
    requires
        0 <= n <= members.len(),
    ensures
        member_names(members, c_only, exclude, n).contains(name) <==> exists|m: int|
            0 <= m < n && exports_name(#[trigger] members[m], c_only, exclude, name),
    decreases n,
{
    if n > 0 {
        let before = member_names(members, c_only, exclude, n - 1);
        let more = match object_names(members[n - 1], c_only, exclude) {
            Some(names) => names,
            None => Seq::empty(),
        };
        lemma_members(members, c_only, exclude, n - 1, name);
        lemma_object(members[n - 1], c_only, exclude, name);
        lemma_contained(before, more, name);
    }
}

/// The files export exactly the exportable symbols of their objects, those of archives included.
pub proof fn law_files_export_their_symbols(
    files: Seq<Seq<u8>>,
    base: int,
    c_only: bool,
    exclude: Seq<String>,
    n: int,
    name: Seq<u8>,
)
    requires
        0 <= n <= files.len(),
        file_names(files, base, c_only, exclude, n) is Ok,
    ensures
        file_names(files, base, c_only, exclude, n)->Ok_0.contains(name) <==> exists|k: int|
            0 <= k < n && file_exports_name(#[trigger] files[k], c_only, exclude, name),
    decreases n,
{
    if n > 0 {
        let before = file_names(files, base, c_only, exclude, n - 1)->Ok_0;
        let data = files[n - 1];
        let more = path_names(data, (base + n - 1) as usize, c_only, exclude)->Ok_0;
        law_files_export_their_symbols(files, base, c_only, exclude, n - 1, name);
        lemma_contained(before, more, name);
        if is_archive(data) {
            let members = archive_members(data)->Ok_0;
            lemma_members(members, c_only, exclude, members.len() as int, name);
        } else {
            lemma_object(data, c_only, exclude, name);
        }
        assert(more.contains(name) <==> file_exports_name(data, c_only, exclude, name));
    }
}

/// The names of an export surface are those of the exportable symbols of the objects, those of the
/// libraries as far as they are C names, and those that are asked for.
pub proof fn law_surface_holds_every_symbol(
    objects: Seq<Seq<u8>>,
    libs: Seq<Seq<u8>>,
    args: Args,
    name: Seq<u8>,
)
    requires
        surface(objects, libs, args) is Ok,
    ensures
        surface(objects, libs, args)->Ok_0.contains(name) <==> {
            ||| exists|k: int|
                0 <= k < objects.len() && file_exports_name(
                    #[trigger] objects[k],
                    false,
                    args.exclude_sym@,
                    name,
                )
            ||| exists|k: int|
                0 <= k < libs.len() && file_exports_name(
                    #[trigger] libs[k],
                    true,
                    args.exclude_sym@,
                    name,
                )
            ||| exists|k: int|
                0 <= k < args.extra_sym@.len() && encode_utf8((#[trigger] args.extra_sym@[k])@)
                    == name
        },
{
    let exclude = args.exclude_sym@;
    let from_objects = file_names(objects, 0, false, exclude, objects.len() as int)->Ok_0;
    let from_libs = file_names(
        libs,
        objects.len() as int,
        true,
        exclude,
        libs.len() as int,
    )->Ok_0;
    let extra = encoded(args.extra_sym@);
    let all = from_objects + from_libs + extra;
    lemma_sorted_form_exists::<Vec<u8>>(all);
    assert(surface(objects, libs, args)->Ok_0.contains(name) <==> all.contains(name));
    lemma_contained(from_objects + from_libs, extra, name);
    lemma_contained(from_objects, from_libs, name);
    law_files_export_their_symbols(objects, 0, false, exclude, objects.len() as int, name);
    law_files_export_their_symbols(
        libs,
        objects.len() as int,
        true,
        exclude,
        libs.len() as int,
        name,
    );
    if extra.contains(name) {
        let k = choose|k: int| 0 <= k < extra.len() && extra[k] == name;
        assert(encode_utf8(args.extra_sym@[k]@) == name);
    }
    if exists|k: int|
        0 <= k < args.extra_sym@.len() && encode_utf8((#[trigger] args.extra_sym@[k])@) == name {
        let k = choose|k: int|
            0 <= k < args.extra_sym@.len() && encode_utf8((#[trigger] args.extra_sym@[k])@) == name;
        assert(extra[k] == name);
    }
}

/// Where the lines of the names begin and end in a text.
pub open spec fn lines_at(names: Seq<Seq<u8>>, script: bool, k: int) -> int
    decreases k,
{
    if k <= 0 {
        if script {
            10
        } else {
            0
        }
    } else {
        lines_at(names, script, k - 1) + names[k - 1].len() + if script {
            2int
        } else {
            1
        }
    }
}

proof fn lemma_literals()
    ensures
        encode_utf8(";\n"@) == seq![0x3bu8, 0x0a],
        encode_utf8("\n"@) == seq![0x0au8],
        encode_utf8("{\nglobal:\n"@) == seq![
            0x7bu8,
            0x0a,
            0x67,
            0x6c,
            0x6f,
            0x62,
            0x61,
            0x6c,
            0x3a,
            0x0a,
        ],
        encode_utf8("local:\n*;\n};\n"@) == seq![
            0x6cu8,
            0x6f,
            0x63,
            0x61,
            0x6c,
            0x3a,
            0x0a,
            0x2a,
            0x3b,
            0x0a,
            0x7d,
            0x3b,
            0x0a,
        ],
{
    reveal_strlit(";\n");
    reveal_strlit("\n");
    reveal_strlit("{\nglobal:\n");
    reveal_strlit("local:\n*;\n};\n");
    is_ascii_chars_encode_utf8(";\n"@);
    is_ascii_chars_encode_utf8("\n"@);
    is_ascii_chars_encode_utf8("{\nglobal:\n"@);
    is_ascii_chars_encode_utf8("local:\n*;\n};\n"@);
    assert(encode_utf8(";\n"@) =~= seq![0x3bu8, 0x0a]);
    assert(encode_utf8("\n"@) =~= seq![0x0au8]);
    assert(encode_utf8("{\nglobal:\n"@) =~= seq![
        0x7bu8,
        0x0a,
        0x67,
        0x6c,
        0x6f,
        0x62,
        0x61,
        0x6c,
        0x3a,
        0x0a,
    ]);
    assert(encode_utf8("local:\n*;\n};\n"@) =~= seq![
        0x6cu8,
        0x6f,
        0x63,
        0x61,
        0x6c,
        0x3a,
        0x0a,
        0x2a,
        0x3b,
        0x0a,
        0x7d,
        0x3b,
        0x0a,
    ]);
}

proof fn lemma_lines(names: Seq<Seq<u8>>, script: bool, n: int, k: int)
    requires
        0 <= n <= names.len(),
        0 <= k <= n,
    ensures
        name_lines(names, script, n).len() == lines_at(names, script, n) - lines_at(
            names,
            script,
            0,
        ),
        lines_at(names, script, 0) <= lines_at(names, script, k) <= lines_at(names, script, n),
        k < n ==> {
            let at = lines_at(names, script, k) - lines_at(names, script, 0);
            let end = lines_at(names, script, k + 1) - lines_at(names, script, 0);
            &&& 0 <= at <= end <= name_lines(names, script, n).len()
            &&& name_lines(names, script, n).subrange(at, end) == names[k] + (if script {
                seq![0x3bu8, 0x0a]
            } else {
                seq![0x0au8]
            })
        },
    decreases n,
{
    lemma_literals();
    if n > 0 {
        let all = name_lines(names, script, n);
        let front = name_lines(names, script, n - 1);
        if k < n {
            lemma_lines(names, script, n - 1, k);
            let at = lines_at(names, script, k) - lines_at(names, script, 0);
            let end = lines_at(names, script, k + 1) - lines_at(names, script, 0);
            if k < n - 1 {
                assert(all.subrange(at, end) =~= front.subrange(at, end));
            } else {
                assert(all.subrange(at, end) =~= names[k] + (if script {
                    seq![0x3bu8, 0x0a]
                } else {
                    seq![0x0au8]
                }));
            }
        } else {
            lemma_lines(names, script, n - 1, n - 1);
        }
    }
}

/// The text of an export surface has the names one behind the other. In a symbol list each of them is
/// on a line of its own; in a version script each ends with a semicolon and a line, behind
/// `{`, `global:`, and everything else is local.
pub proof fn law_surface_has_a_line_for_each_name(
    names: Seq<Seq<u8>>,
    format: OutputFormat,
    k: int,
)
    requires
        0 <= k < names.len(),
    ensures
        ({
            let text = rendered(names, format);
            let script = format == OutputFormat::VersionScript;
            let at = lines_at(names, script, k);
            let end = lines_at(names, script, k + 1);
            let last = lines_at(names, script, names.len() as int);
            &&& 0 <= at <= end <= last <= text.len()
            &&& text.subrange(at, end) == names[k] + (if script {
                seq![0x3bu8, 0x0a]
            } else {
                seq![0x0au8]
            })
            &&& !script ==> text.len() == last
            &&& script ==> {
                &&& text.subrange(0, 10) == seq![
                    0x7bu8,
                    0x0a,
                    0x67,
                    0x6c,
                    0x6f,
                    0x62,
                    0x61,
                    0x6c,
                    0x3a,
                    0x0a,
                ]
                &&& text.subrange(last, text.len() as int) == seq![
                    0x6cu8,
                    0x6f,
                    0x63,
                    0x61,
                    0x6c,
                    0x3a,
                    0x0a,
                    0x2a,
                    0x3b,
                    0x0a,
                    0x7d,
                    0x3b,
                    0x0a,
                ]
            }
        }),
{
    lemma_literals();
    let script = format == OutputFormat::VersionScript;
    let n = names.len() as int;
    let lines = name_lines(names, script, n);
    let text = rendered(names, format);
    let at = lines_at(names, script, k);
    let end = lines_at(names, script, k + 1);
    let last = lines_at(names, script, n);
    lemma_lines(names, script, n, k);
    lemma_lines(names, script, n, k + 1);
    if script {
        assert(text.subrange(at, end) =~= lines.subrange(at - 10, end - 10));
        assert(text.subrange(0, 10) =~= encode_utf8("{\nglobal:\n"@));
        assert(text.subrange(last, text.len() as int) =~= encode_utf8("local:\n*;\n};\n"@));
    } else {
        assert(text.subrange(at, end) =~= lines.subrange(at, end));
    }
}

} // verus!
