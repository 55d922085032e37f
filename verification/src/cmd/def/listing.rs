//! What a `.def` exports, symbol by symbol.

use vstd::prelude::*;
use vstd::utf8::*;
use crate::bytes::{begins, begins_any, holds};
use crate::cmd::manifest::listing::begins_with_one;
use crate::order::{bytes_lt, lemma_sorted_form_exists, sorted_form};
use crate::util::coff::{coff_object, CoffSymbolView, CoffView};
use crate::util::objfile::{archive_members, file_exports as objfile_exports, is_archive};
use super::{
    exported, file_exports, first_parts, in_name_order, is_skipped, member_exports, object_exports,
    path_exports, surface, verdict, Args, Verdict,
};
use super::render::{combined, def_line, def_lines, is_def_of, DefExport};
use super::forward::{added, forwarders_of, target_of, ForwardDll};

verus! {

/// How the names of compiler and runtime symbols begin: RTTI descriptors, string literals, initializer
/// and exit thunks, float constants, exception data, import pointers, and labels.
pub open spec fn runtime_prefixes() -> Seq<Seq<char>> {
    seq![
        "??_R"@, "??_C@"@, "??__E"@, "??__F"@, "__real@"@, "__xmm@"@, "__ymm@"@, "_CT??"@, "_TI"@,
        "__imp_"@, "$"@, "."@, "@"@,
    ]
}

/// What stands in the names of thread-safe statics and of the standard library.
pub open spec fn runtime_parts() -> Seq<Seq<char>> {
    seq!["?$TSS"@, "@std@@"@]
}

/// The entry points of a program.
pub open spec fn entry_points() -> Seq<Seq<char>> {
    seq!["main"@, "SDL_main"@, "WinMain"@, "wWinMain"@, "DllMain"@]
}

/// Whether a name is one of a compiler or a runtime.
pub open spec fn is_runtime_name(name: Seq<u8>) -> bool {
    ||| begins_with_one(name, runtime_prefixes())
    ||| exists|i: int|
        0 <= i < runtime_parts().len() && holds(name, encode_utf8(#[trigger] runtime_parts()[i]))
    ||| exists|i: int|
        0 <= i < entry_points().len() && name == encode_utf8(#[trigger] entry_points()[i])
}

/// The names that are skipped are those of compilers and runtimes.
pub proof fn law_runtime_names_are_skipped(name: Seq<u8>)
    ensures
        is_skipped(name) <==> is_runtime_name(name),
{
    let p = runtime_prefixes();
    let q = runtime_parts();
    let e = entry_points();
    assert(p[0] == "??_R"@ && p[1] == "??_C@"@ && p[2] == "??__E"@ && p[3] == "??__F"@ && p[4]
        == "__real@"@ && p[5] == "__xmm@"@ && p[6] == "__ymm@"@);
    assert(p[7] == "_CT??"@ && p[8] == "_TI"@ && p[9] == "__imp_"@ && p[10] == "$"@ && p[11]
        == "."@ && p[12] == "@"@);
    assert(q[0] == "?$TSS"@ && q[1] == "@std@@"@);
    assert(e[0] == "main"@ && e[1] == "SDL_main"@ && e[2] == "WinMain"@ && e[3] == "wWinMain"@
        && e[4] == "DllMain"@);
    if begins_with_one(name, p) {
        let i = choose|i: int| 0 <= i < p.len() && begins(name, encode_utf8(#[trigger] p[i]));
        assert(is_skipped(name));
    }
    if exists|i: int| 0 <= i < q.len() && holds(name, encode_utf8(#[trigger] q[i])) {
        let i = choose|i: int| 0 <= i < q.len() && holds(name, encode_utf8(#[trigger] q[i]));
        assert(is_skipped(name));
    }
    if exists|i: int| 0 <= i < e.len() && name == encode_utf8(#[trigger] e[i]) {
        let i = choose|i: int| 0 <= i < e.len() && name == encode_utf8(#[trigger] e[i]);
        assert(is_skipped(name));
    }
}

/// Whether a section is in a COMDAT that may be there more than once, so that every image has it.
pub open spec fn is_shared(object: CoffView, section: usize) -> bool {
    section < object.code.len() + 2 && exists|c: int|
        0 <= c < object.comdats.len() && !(#[trigger] object.comdats[c]).0
            && object.comdats[c].1.contains(section)
}

/// Whether a symbol is exported: it is a global definition in a section of its own image and has a name
/// that is neither one of a compiler or runtime nor excluded, and in a library that is scanned for C
/// names none that begins with `?`.
pub open spec fn is_exportable(
    object: CoffView,
    symbol: CoffSymbolView,
    c_only: bool,
    exclude: Seq<String>,
) -> bool {
    &&& symbol.definition
    &&& symbol.global
    &&& symbol.section matches Some(section) && !is_shared(object, section)
    &&& symbol.name matches Some(name) && {
        &&& name.len() > 0
        &&& !(c_only && name[0] == 0x3f)
        &&& !is_runtime_name(name)
        &&& !begins_any(name, exclude)
    }
}

/// Whether a symbol is code: the section that it is in, counted from one, is.
pub open spec fn is_code(object: CoffView, symbol: CoffSymbolView) -> bool {
    symbol.section matches Some(section) && 1 <= section <= object.code.len() && object.code[section
        - 1]
}

/// The export of a symbol: its name, and whether it is data.
pub open spec fn export_of(object: CoffView, symbol: CoffSymbolView) -> (Seq<u8>, bool) {
    (symbol.name->Some_0, !is_code(object, symbol))
}

proof fn lemma_verdict(
    object: CoffView,
    symbol: CoffSymbolView,
    c_only: bool,
    exclude: Seq<String>,
)
    ensures
        is_exportable(object, symbol, c_only, exclude) <==> verdict(
            object,
            symbol,
            c_only,
            exclude,
        ) is Export,
        is_exportable(object, symbol, c_only, exclude) ==> verdict(object, symbol, c_only, exclude)
            == (Verdict::Export { data: !is_code(object, symbol) }),
{
    if symbol.name is Some {
        law_runtime_names_are_skipped(symbol.name->Some_0);
    }
}

/// An object exports exactly the symbols that are exportable, each as code or data.
pub proof fn law_object_exports_its_symbols(
    object: CoffView,
    c_only: bool,
    exclude: Seq<String>,
    n: int,
    export: (Seq<u8>, bool),
)
    requires
        0 <= n <= object.symbols.len(),
    ensures
        exported(object, c_only, exclude, n).contains(export) <==> exists|i: int|
            0 <= i < n && #[trigger] is_exportable(object, object.symbols[i], c_only, exclude)
                && export == export_of(object, object.symbols[i]),
    decreases n,
{
    if n > 0 {
        let before = exported(object, c_only, exclude, n - 1);
        let all = exported(object, c_only, exclude, n);
        let s = object.symbols[n - 1];
        law_object_exports_its_symbols(object, c_only, exclude, n - 1, export);
        lemma_verdict(object, s, c_only, exclude);
        if all.contains(export) {
            let k = choose|k: int| 0 <= k < all.len() && all[k] == export;
            if k < before.len() {
                assert(before[k] == export);
            } else {
                assert(is_exportable(object, object.symbols[n - 1], c_only, exclude));
            }
        }
        if before.contains(export) {
            let k = choose|k: int| 0 <= k < before.len() && before[k] == export;
            assert(all[k] == export);
        }
        if is_exportable(object, s, c_only, exclude) && export == export_of(object, s) {
            assert(all[before.len() as int] == export);
        }
    }
}

/// Whether a file is the object, or an archive with the object as a member.
pub open spec fn holds_object(data: Seq<u8>, object: CoffView) -> bool {
    if is_archive(data) {
        archive_members(data) matches Ok(members) && exists|m: int|
            0 <= m < members.len() && coff_object(#[trigger] members[m]) == Some(object)
    } else {
        coff_object(data) == Some(object)
    }
}

proof fn lemma_members(
    members: Seq<Seq<u8>>,
    c_only: bool,
    exclude: Seq<String>,
    n: int,
    export: (Seq<u8>, bool),
)
    requires
        0 <= n <= members.len(),
    ensures
        member_exports(members, c_only, exclude, n).contains(export) <==> exists|m: int|
            0 <= m < n && (coff_object(#[trigger] members[m]) matches Some(object)
                && object_exports(object, c_only, exclude).contains(export)),
    decreases n,
{
    if n > 0 {
        let before = member_exports(members, c_only, exclude, n - 1);
        let all = member_exports(members, c_only, exclude, n);
        let more = match coff_object(members[n - 1]) {
            Some(object) => object_exports(object, c_only, exclude),
            None => Seq::empty(),
        };
        lemma_members(members, c_only, exclude, n - 1, export);
        assert(all == before + more);
        lemma_contained(before, more, export);
    }
}

pub(crate) proof fn lemma_contained<A>(a: Seq<A>, b: Seq<A>, x: A)
    ensures
        (a + b).contains(x) <==> a.contains(x) || b.contains(x),
{
    let all = a + b;
    if a.contains(x) {
        let k = choose|k: int| 0 <= k < a.len() && a[k] == x;
        assert(all[k] == x);
    }
    if b.contains(x) {
        let k = choose|k: int| 0 <= k < b.len() && b[k] == x;
        assert(all[a.len() + k] == x);
    }
    if all.contains(x) {
        let k = choose|k: int| 0 <= k < all.len() && all[k] == x;
        if k < a.len() {
            assert(a[k] == x);
        } else {
            assert(b[k - a.len()] == x);
        }
    }
}

/// Whether a symbol of the files is exported as `export`.
pub open spec fn is_export_of_files(
    files: Seq<Seq<u8>>,
    c_only: bool,
    exclude: Seq<String>,
    n: int,
    export: (Seq<u8>, bool),
) -> bool {
    exists|k: int, object: CoffView, i: int|
        0 <= k < n && #[trigger] holds_object(files[k], object) && 0 <= i < object.symbols.len()
            && #[trigger] is_exportable(object, object.symbols[i], c_only, exclude) && export
            == export_of(object, object.symbols[i])
}

proof fn lemma_path(
    data: Seq<u8>,
    at: usize,
    c_only: bool,
    exclude: Seq<String>,
    export: (Seq<u8>, bool),
)
    requires
        path_exports(data, at, c_only, exclude) is Ok,
    ensures
        path_exports(data, at, c_only, exclude)->Ok_0.contains(export) <==> exists|
            object: CoffView,
            i: int,
        |
            #[trigger] holds_object(data, object) && 0 <= i < object.symbols.len()
                && #[trigger] is_exportable(object, object.symbols[i], c_only, exclude) && export
                == export_of(object, object.symbols[i]),
{
    if is_archive(data) {
        let members = archive_members(data)->Ok_0;
        lemma_members(members, c_only, exclude, members.len() as int, export);
        if path_exports(data, at, c_only, exclude)->Ok_0.contains(export) {
            let m = choose|m: int|
                0 <= m < members.len() && (coff_object(#[trigger] members[m]) matches Some(object)
                    && object_exports(object, c_only, exclude).contains(export));
            let object = coff_object(members[m])->Some_0;
            law_object_exports_its_symbols(
                object,
                c_only,
                exclude,
                object.symbols.len() as int,
                export,
            );
            assert(holds_object(data, object));
        }
        assert forall|object: CoffView, i: int|
            #[trigger] holds_object(data, object) && 0 <= i < object.symbols.len()
                && #[trigger] is_exportable(object, object.symbols[i], c_only, exclude) && export
                == export_of(
                object,
                object.symbols[i],
            ) implies path_exports(data, at, c_only, exclude)->Ok_0.contains(export) by {
            let m = choose|m: int|
                0 <= m < members.len() && coff_object(#[trigger] members[m]) == Some(object);
            law_object_exports_its_symbols(
                object,
                c_only,
                exclude,
                object.symbols.len() as int,
                export,
            );
        }
    } else {
        let object = coff_object(data)->Some_0;
        law_object_exports_its_symbols(
            object,
            c_only,
            exclude,
            object.symbols.len() as int,
            export,
        );
        assert(holds_object(data, object));
    }
}

/// The files export exactly the exportable symbols of their objects, those of archives included.
pub proof fn law_files_export_their_symbols(
    files: Seq<Seq<u8>>,
    base: int,
    c_only: bool,
    exclude: Seq<String>,
    n: int,
    export: (Seq<u8>, bool),
)
    requires
        0 <= n <= files.len(),
        file_exports(files, base, c_only, exclude, n) is Ok,
    ensures
        file_exports(files, base, c_only, exclude, n)->Ok_0.contains(export) <==> is_export_of_files(
            files,
            c_only,
            exclude,
            n,
            export,
        ),
    decreases n,
{
    if n > 0 {
        let before = file_exports(files, base, c_only, exclude, n - 1)->Ok_0;
        let at = (base + n - 1) as usize;
        let more = path_exports(files[n - 1], at, c_only, exclude)->Ok_0;
        law_files_export_their_symbols(files, base, c_only, exclude, n - 1, export);
        lemma_path(files[n - 1], at, c_only, exclude, export);
        lemma_contained(before, more, export);
        if is_export_of_files(files, c_only, exclude, n - 1, export) {
            let (k, object, i) = choose|k: int, object: CoffView, i: int|
                0 <= k < n - 1 && #[trigger] holds_object(files[k], object) && 0 <= i
                    < object.symbols.len() && #[trigger] is_exportable(
                    object,
                    object.symbols[i],
                    c_only,
                    exclude,
                ) && export == export_of(object, object.symbols[i]);
            assert(0 <= k < n && holds_object(files[k], object));
        }
        if more.contains(export) {
            let (object, i) = choose|object: CoffView, i: int|
                #[trigger] holds_object(files[n - 1], object) && 0 <= i < object.symbols.len()
                    && #[trigger] is_exportable(object, object.symbols[i], c_only, exclude)
                    && export == export_of(object, object.symbols[i]);
            assert(holds_object(files[n - 1], object));
        }
        if is_export_of_files(files, c_only, exclude, n, export) {
            let (k, object, i) = choose|k: int, object: CoffView, i: int|
                0 <= k < n && #[trigger] holds_object(files[k], object) && 0 <= i
                    < object.symbols.len() && #[trigger] is_exportable(
                    object,
                    object.symbols[i],
                    c_only,
                    exclude,
                ) && export == export_of(object, object.symbols[i]);
            if k < n - 1 {
                assert(0 <= k < n - 1 && holds_object(files[k], object));
            }
        }
    }
}

proof fn lemma_ordered<V>(pairs: Seq<(Seq<u8>, V)>, name: Seq<u8>)
    ensures
        first_parts(in_name_order(pairs)).contains(name) <==> first_parts(pairs).contains(name),
{
    let names = sorted_form::<Vec<u8>>(first_parts(pairs));
    lemma_sorted_form_exists::<Vec<u8>>(first_parts(pairs));
    assert(first_parts(in_name_order(pairs)) =~= names);
    assert(names.contains(name) <==> first_parts(pairs).contains(name));
}

/// The names that a `.def` exports of its own are those of the exportable symbols of the objects, and of
/// the libraries as far as they are C names.
pub proof fn law_def_exports_every_symbol(
    objects: Seq<Seq<u8>>,
    libs: Seq<Seq<u8>>,
    dlls: Seq<ForwardDll>,
    args: Args,
    name: Seq<u8>,
)
    requires
        surface(objects, libs, dlls, args) is Ok,
    ensures
        first_parts(surface(objects, libs, dlls, args)->Ok_0.0).contains(name) <==> exists|
            data: bool,
        |
            #[trigger] is_export_of_files(
                objects,
                false,
                args.exclude_sym@,
                objects.len() as int,
                (name, data),
            ) || is_export_of_files(
                libs,
                true,
                args.exclude_sym@,
                libs.len() as int,
                (name, data),
            ),
{
    let exclude = args.exclude_sym@;
    let from_objects = file_exports(objects, 0, false, exclude, objects.len() as int)->Ok_0;
    let from_libs = file_exports(
        libs,
        objects.len() as int,
        true,
        exclude,
        libs.len() as int,
    )->Ok_0;
    let all = from_objects + from_libs;
    lemma_ordered(all, name);
    assert forall|data: bool| all.contains((name, data)) <==> #[trigger] is_export_of_files(
        objects,
        false,
        exclude,
        objects.len() as int,
        (name, data),
    ) || is_export_of_files(libs, true, exclude, libs.len() as int, (name, data)) by {
        lemma_contained(from_objects, from_libs, (name, data));
        law_files_export_their_symbols(
            objects,
            0,
            false,
            exclude,
            objects.len() as int,
            (name, data),
        );
        law_files_export_their_symbols(
            libs,
            objects.len() as int,
            true,
            exclude,
            libs.len() as int,
            (name, data),
        );
    }
    if first_parts(all).contains(name) {
        let k = choose|k: int| 0 <= k < all.len() && first_parts(all)[k] == name;
        assert(all[k] == (name, all[k].1));
        assert(all.contains((name, all[k].1)));
        assert(is_export_of_files(
            objects,
            false,
            exclude,
            objects.len() as int,
            (name, all[k].1),
        ) || is_export_of_files(libs, true, exclude, libs.len() as int, (name, all[k].1)));
    }
    assert forall|data: bool|
        #[trigger] is_export_of_files(objects, false, exclude, objects.len() as int, (name, data))
            || is_export_of_files(
            libs,
            true,
            exclude,
            libs.len() as int,
            (name, data),
        ) implies first_parts(all).contains(name) by {
        let k = choose|k: int| 0 <= k < all.len() && all[k] == (name, data);
        assert(first_parts(all)[k] == name);
    }
}

/// A name that comes up more than once is what its first symbol is.
pub proof fn law_first_symbol_decides<V>(pairs: Seq<(Seq<u8>, V)>, i: int)
    requires
        0 <= i < in_name_order(pairs).len(),
    ensures
        exists|k: int|
            0 <= k < pairs.len() && #[trigger] pairs[k] == in_name_order(pairs)[i] && forall|j: int|
                0 <= j < k ==> (#[trigger] pairs[j]).0 != pairs[k].0,
{
    let names = sorted_form::<Vec<u8>>(first_parts(pairs));
    let firsts = first_parts(pairs);
    lemma_sorted_form_exists::<Vec<u8>>(firsts);
    let name = names[i];
    assert(names.contains(name));
    assert(firsts.contains(name));
    firsts.index_of_first_ensures(name);
    let k = firsts.index_of_first(name)->Some_0;
    assert(firsts[k] == name);
    assert(pairs[k] == in_name_order(pairs)[i]);
    assert forall|j: int| 0 <= j < k implies (#[trigger] pairs[j]).0 != pairs[k].0 by {
        assert(firsts[j] == pairs[j].0);
    }
}

/// Whether an export of a DLL is forwarded: it has a name that is neither one of a compiler or runtime
/// nor excluded, and begins with one of the prefixes where such are asked for.
pub open spec fn is_forwardable(
    name: Seq<u8>,
    prefixes: Seq<String>,
    exclude: Seq<String>,
) -> bool {
    &&& name.len() > 0
    &&& !is_runtime_name(name)
    &&& !begins_any(name, exclude)
    &&& prefixes.len() > 0 ==> begins_any(name, prefixes)
}

/// `module.name`.
pub open spec fn forward_target(module: Seq<u8>, name: Seq<u8>) -> Seq<u8> {
    module + encode_utf8("."@) + name
}

proof fn lemma_target(module: Seq<u8>, name: Seq<u8>)
    ensures
        target_of(module, name) == forward_target(module, name),
{
    reveal_strlit(".");
    reveal_with_fuel(encode_utf8, 2);
    assert("."@ =~= seq!['.']);
    assert(is_ascii_chars("."@));
    is_ascii_chars_encode_utf8("."@);
    assert(encode_utf8("."@) =~= seq![0x2eu8]);
}

/// The forwarders of a module are added to those before: nothing is lost, and each export that is
/// forwardable has its own.
proof fn lemma_added(
    before: Seq<(Seq<u8>, Seq<u8>)>,
    names: Seq<Seq<u8>>,
    module: Seq<u8>,
    at: usize,
    prefixes: Seq<String>,
    exclude: Seq<String>,
    n: int,
)
    requires
        0 <= n <= names.len(),
        added(before, names, module, at, prefixes, exclude, n) is Ok,
    ensures
        ({
            let all = added(before, names, module, at, prefixes, exclude, n)->Ok_0;
            &&& forall|k: int| 0 <= k < before.len() ==> all.contains(#[trigger] before[k])
            &&& forall|k: int|
                0 <= k < n && is_forwardable(#[trigger] names[k], prefixes, exclude)
                    ==> all.contains((names[k], forward_target(module, names[k])))
        }),
    decreases n,
{
    let all = added(before, names, module, at, prefixes, exclude, n)->Ok_0;
    if n > 0 {
        lemma_added(before, names, module, at, prefixes, exclude, n - 1);
        let so_far = added(before, names, module, at, prefixes, exclude, n - 1)->Ok_0;
        let name = names[n - 1];
        lemma_target(module, name);
        law_runtime_names_are_skipped(name);
        assert forall|x: (Seq<u8>, Seq<u8>)| #[trigger] so_far.contains(x) implies all.contains(
            x,
        ) by {
            let k = choose|k: int| 0 <= k < so_far.len() && so_far[k] == x;
            assert(all[k] == x);
        }
        if is_forwardable(name, prefixes, exclude) {
            let found = first_parts(so_far).index_of_first(name);
            first_parts(so_far).index_of_first_ensures(name);
            if found is Some {
                let k = found->Some_0;
                assert(first_parts(so_far)[k] == name);
                assert(all[k] == (name, forward_target(module, name)));
            } else {
                assert(all[so_far.len() as int] == (name, forward_target(module, name)));
            }
        }
    } else {
        assert forall|k: int| 0 <= k < before.len() implies all.contains(#[trigger] before[k]) by {}
    }
}

/// The forwarder of an export names it in its module, `module.name`.
pub proof fn law_forwarders_name_their_module(
    dlls: Seq<ForwardDll>,
    prefixes: Seq<String>,
    exclude: Seq<String>,
    n: int,
    k: int,
    e: int,
)
    requires
        0 <= k < n <= dlls.len(),
        forwarders_of(dlls, prefixes, exclude, n) is Ok,
        ({
            let names = objfile_exports(dlls[k].data@)->Some_0->Some_0;
            0 <= e < names.len() && is_forwardable(names[e], prefixes, exclude)
        }),
    ensures
        ({
            let name = objfile_exports(dlls[k].data@)->Some_0->Some_0[e];
            forwarders_of(dlls, prefixes, exclude, n)->Ok_0.contains(
                (name, forward_target(encode_utf8(dlls[k].module->Some_0@), name)),
            )
        }),
    decreases n,
{
    let before = forwarders_of(dlls, prefixes, exclude, n - 1)->Ok_0;
    let names = objfile_exports(dlls[n - 1].data@)->Some_0->Some_0;
    let module = encode_utf8(dlls[n - 1].module->Some_0@);
    lemma_added(before, names, module, (n - 1) as usize, prefixes, exclude, names.len() as int);
    if k == n - 1 {
        assert(is_forwardable(names[e], prefixes, exclude));
    } else {
        law_forwarders_name_their_module(dlls, prefixes, exclude, n - 1, k, e);
        let name = objfile_exports(dlls[k].data@)->Some_0->Some_0[e];
        let x = (name, forward_target(encode_utf8(dlls[k].module->Some_0@), name));
        let j = choose|j: int| 0 <= j < before.len() && before[j] == x;
        assert(before[j] == x);
    }
}

/// Every named export of a forward DLL that is forwardable has a forwarder, `name=module.name`.
pub proof fn law_def_forwards_every_export(
    objects: Seq<Seq<u8>>,
    libs: Seq<Seq<u8>>,
    dlls: Seq<ForwardDll>,
    args: Args,
    k: int,
    e: int,
)
    requires
        surface(objects, libs, dlls, args) is Ok,
        0 <= k < dlls.len(),
        ({
            let names = objfile_exports(dlls[k].data@)->Some_0->Some_0;
            0 <= e < names.len() && is_forwardable(
                names[e],
                args.forward_sym_prefix@,
                args.exclude_sym@,
            )
        }),
    ensures
        first_parts(surface(objects, libs, dlls, args)->Ok_0.1).contains(
            objfile_exports(dlls[k].data@)->Some_0->Some_0[e],
        ),
{
    let prefixes = args.forward_sym_prefix@;
    let exclude = args.exclude_sym@;
    let all = forwarders_of(dlls, prefixes, exclude, dlls.len() as int)->Ok_0;
    let name = objfile_exports(dlls[k].data@)->Some_0->Some_0[e];
    law_forwarders_name_their_module(dlls, prefixes, exclude, dlls.len() as int, k, e);
    let x = (name, forward_target(encode_utf8(dlls[k].module->Some_0@), name));
    let j = choose|j: int| 0 <= j < all.len() && all[j] == x;
    assert(first_parts(all)[j] == name);
    lemma_ordered(all, name);
}

/// The line of a name: four spaces, the name, what is said of it, and the end of the line.
pub open spec fn line_of(name: Seq<u8>, rest: Seq<u8>) -> Seq<u8> {
    seq![0x20u8, 0x20, 0x20, 0x20] + name + rest + seq![0x0au8]
}

/// Whether a line stands in a text, right behind another line.
pub open spec fn is_line_in(text: Seq<u8>, line: Seq<u8>) -> bool {
    exists|at: int|
        0 < at && at + line.len() <= text.len() && #[trigger] text.subrange(at, at + line.len())
            == line && text[at - 1] == 0x0a
}

proof fn lemma_literals()
    ensures
        encode_utf8("    "@) == seq![0x20u8, 0x20, 0x20, 0x20],
        encode_utf8("\n"@) == seq![0x0au8],
        encode_utf8(" DATA\n"@) == seq![0x20u8, 0x44, 0x41, 0x54, 0x41, 0x0a],
        encode_utf8("="@) == seq![0x3du8],
        encode_utf8("EXPORTS\n"@) == seq![0x45u8, 0x58, 0x50, 0x4f, 0x52, 0x54, 0x53, 0x0a],
{
    reveal_strlit("    ");
    reveal_strlit("\n");
    reveal_strlit(" DATA\n");
    reveal_strlit("=");
    reveal_strlit("EXPORTS\n");
    is_ascii_chars_encode_utf8("    "@);
    is_ascii_chars_encode_utf8("\n"@);
    is_ascii_chars_encode_utf8(" DATA\n"@);
    is_ascii_chars_encode_utf8("="@);
    is_ascii_chars_encode_utf8("EXPORTS\n"@);
    assert(encode_utf8("    "@) =~= seq![0x20u8, 0x20, 0x20, 0x20]);
    assert(encode_utf8("\n"@) =~= seq![0x0au8]);
    assert(encode_utf8(" DATA\n"@) =~= seq![0x20u8, 0x44, 0x41, 0x54, 0x41, 0x0a]);
    assert(encode_utf8("="@) =~= seq![0x3du8]);
    assert(encode_utf8("EXPORTS\n"@) =~= seq![0x45u8, 0x58, 0x50, 0x4f, 0x52, 0x54, 0x53, 0x0a]);
}

proof fn lemma_combined_holds(
    exports: Seq<(Seq<u8>, bool)>,
    forwarders: Seq<(Seq<u8>, Seq<u8>)>,
)
    ensures
        forall|i: int|
            0 <= i < exports.len() ==> combined(exports, forwarders).contains(
                ((#[trigger] exports[i]).0, DefExport::Local { data: exports[i].1 }),
            ),
        forall|i: int|
            0 <= i < forwarders.len() ==> combined(exports, forwarders).contains(
                ((#[trigger] forwarders[i]).0, DefExport::Forward { target: forwarders[i].1 }),
            ),
    decreases exports.len() + forwarders.len(),
{
    let all = combined(exports, forwarders);
    if exports.len() == 0 && forwarders.len() == 0 {
    } else if forwarders.len() == 0 || (exports.len() > 0 && bytes_lt(
        exports[0].0,
        forwarders[0].0,
    )) {
        let rest = combined(exports.drop_first(), forwarders);
        lemma_combined_holds(exports.drop_first(), forwarders);
        assert forall|x: (Seq<u8>, DefExport)| #[trigger] rest.contains(x) implies all.contains(
            x,
        ) by {
            let k = choose|k: int| 0 <= k < rest.len() && rest[k] == x;
            assert(all[k + 1] == x);
        }
        assert(all[0] == (exports[0].0, DefExport::Local { data: exports[0].1 }));
        assert forall|i: int| 0 <= i < exports.len() implies all.contains(
            ((#[trigger] exports[i]).0, DefExport::Local { data: exports[i].1 }),
        ) by {
            if i > 0 {
                assert(exports.drop_first()[i - 1] == exports[i]);
            }
        }
    } else {
        let rest = combined(exports, forwarders.drop_first());
        lemma_combined_holds(exports, forwarders.drop_first());
        assert forall|x: (Seq<u8>, DefExport)| #[trigger] rest.contains(x) implies all.contains(
            x,
        ) by {
            let k = choose|k: int| 0 <= k < rest.len() && rest[k] == x;
            assert(all[k + 1] == x);
        }
        assert(all[0] == (forwarders[0].0, DefExport::Forward { target: forwarders[0].1 }));
        assert forall|i: int| 0 <= i < forwarders.len() implies all.contains(
            ((#[trigger] forwarders[i]).0, DefExport::Forward { target: forwarders[i].1 }),
        ) by {
            if i > 0 {
                assert(forwarders.drop_first()[i - 1] == forwarders[i]);
            }
        }
    }
}

proof fn lemma_line_in(front: Seq<u8>, items: Seq<(Seq<u8>, DefExport)>, k: int)
    requires
        0 <= k < items.len(),
        front.len() > 0,
        front.last() == 0x0a,
    ensures
        is_line_in(front + def_lines(items), def_line(items[k].0, items[k].1)),
    decreases items.len(),
{
    lemma_literals();
    let line = def_line(items[0].0, items[0].1);
    let rest = def_lines(items.drop_first());
    let text = front + def_lines(items);
    assert(text =~= front + line + rest);
    if k == 0 {
        let at = front.len() as int;
        assert(text.subrange(at, at + line.len()) =~= line);
        assert(text[at - 1] == front.last());
    } else {
        assert((front + line).last() == 0x0a);
        lemma_line_in(front + line, items.drop_first(), k - 1);
    }
}

/// A `.def` begins with `EXPORTS` and has a line for each export, ` DATA` behind the name where it is
/// data, and one for each forwarder, with `=` and its target behind the name.
pub proof fn law_def_has_a_line_for_each_name(
    exports: Seq<(Seq<u8>, bool)>,
    forwarders: Seq<(Seq<u8>, Seq<u8>)>,
    text: Seq<u8>,
    i: int,
)
    requires
        is_def_of(exports, forwarders, Ok(text)),
    ensures
        text.len() >= 8,
        text.subrange(0, 8) == seq![0x45u8, 0x58, 0x50, 0x4f, 0x52, 0x54, 0x53, 0x0a],
        0 <= i < exports.len() ==> is_line_in(
            text,
            line_of(
                exports[i].0,
                if exports[i].1 {
                    seq![0x20u8, 0x44, 0x41, 0x54, 0x41]
                } else {
                    Seq::empty()
                },
            ),
        ),
        0 <= i < forwarders.len() ==> is_line_in(
            text,
            line_of(forwarders[i].0, seq![0x3du8] + forwarders[i].1),
        ),
{
    lemma_literals();
    lemma_combined_holds(exports, forwarders);
    let items = combined(exports, forwarders);
    let front = encode_utf8("EXPORTS\n"@);
    assert(text.subrange(0, 8) =~= front);
    if 0 <= i < exports.len() {
        let x = (exports[i].0, DefExport::Local { data: exports[i].1 });
        let k = choose|k: int| 0 <= k < items.len() && items[k] == x;
        lemma_line_in(front, items, k);
        assert(def_line(x.0, x.1) =~= line_of(
            exports[i].0,
            if exports[i].1 {
                seq![0x20u8, 0x44, 0x41, 0x54, 0x41]
            } else {
                Seq::empty()
            },
        ));
    }
    if 0 <= i < forwarders.len() {
        let x = (forwarders[i].0, DefExport::Forward { target: forwarders[i].1 });
        let k = choose|k: int| 0 <= k < items.len() && items[k] == x;
        lemma_line_in(front, items, k);
        assert(def_line(x.0, x.1) =~= line_of(forwarders[i].0, seq![0x3du8] + forwarders[i].1));
    }
}

} // verus!
