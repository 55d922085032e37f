//! Which of the inputs the commands read, and what they are asked for.

use vstd::prelude::*;
use vstd::utf8::*;
use crate::bytes::holds;
use crate::cmd::def::mixed::mixed_names;
use crate::cmd::def::{first_named, first_parts, is_included, is_resource};
use crate::cmd::manifest::{self, source_of, ManifestFault, Source};
use crate::cmd::stub::implib::bound_module;
use crate::cmd::stub::StubError;
use crate::cmd::{def, exports};
use crate::text::{lower_char, slashed};

verus! {

/// Whether one of the texts stands in a path, written with slashes.
pub open spec fn path_holds_one(path: Seq<char>, texts: Seq<Seq<char>>) -> bool {
    exists|i: int|
        0 <= i < texts.len() && holds(encode_utf8(slashed(path)), encode_utf8(#[trigger] texts[i]))
}

/// A path is wanted where it holds none of the texts that exclude it, and one of those that include it
/// where there are any.
pub proof fn law_paths_are_wanted(
    path: Seq<char>,
    includes: Seq<Seq<char>>,
    excludes: Seq<Seq<char>>,
)
    ensures
        path_holds_one(path, excludes) ==> !is_included(path, includes, excludes),
        path_holds_one(path, includes) && !path_holds_one(path, excludes) ==> is_included(
            path,
            includes,
            excludes,
        ),
        includes.len() == 0 && !path_holds_one(path, excludes) ==> is_included(
            path,
            includes,
            excludes,
        ),
        includes.len() > 0 && !path_holds_one(path, includes) ==> !is_included(
            path,
            includes,
            excludes,
        ),
{
    let whole = encode_utf8(slashed(path));
    assert forall|texts: Seq<Seq<char>>|
        path_holds_one(path, texts) == (exists|i: int|
            0 <= i < texts.len() && #[trigger] holds(whole, encode_utf8(texts[i]))) by {
        if path_holds_one(path, texts) {
            let i = choose|i: int|
                0 <= i < texts.len() && holds(whole, encode_utf8(#[trigger] texts[i]));
            assert(holds(whole, encode_utf8(texts[i])));
        }
        if exists|i: int| 0 <= i < texts.len() && #[trigger] holds(whole, encode_utf8(texts[i])) {
            let i = choose|i: int|
                0 <= i < texts.len() && #[trigger] holds(whole, encode_utf8(texts[i]));
            assert(holds(whole, encode_utf8(texts[i])));
        }
    }
}

/// A resource file is one whose name ends in `.res`, in any case.
pub proof fn law_resources_end_in_res(stem: Seq<u8>, end: Seq<u8>)
    requires
        end.len() == 4,
    ensures
        is_resource(stem + end) <==> forall|k: int|
            0 <= k < 4 ==> lower_char(#[trigger] end[k] as char) == ".res"@[k],
        !is_resource(end.drop_first()),
{
    reveal_strlit(".res");
    let path = stem + end;
    let n = path.len() as int;
    assert(path[n - 4] == end[0]);
    assert(path[n - 3] == end[1]);
    assert(path[n - 2] == end[2]);
    assert(path[n - 1] == end[3]);
    assert(".res"@[0] == '.' && ".res"@[1] == 'r' && ".res"@[2] == 'e' && ".res"@[3] == 's');
}

/// The inputs that are read for a definition file are those that are wanted and no resource files,
/// in their order, and as often as they are given.
pub proof fn law_definition_inputs_are_selected(
    paths: Seq<Seq<char>>,
    path: Seq<char>,
    includes: Seq<Seq<char>>,
    excludes: Seq<Seq<char>>,
)
    ensures
        ({
            let n = paths.len() as int;
            let before = def::paths_included(paths, includes, excludes, n);
            let after = def::paths_included(paths.push(path), includes, excludes, n + 1);
            after == if !is_resource(encode_utf8(path)) && is_included(path, includes, excludes) {
                before.push(path)
            } else {
                before
            }
        }),
        def::paths_included(Seq::empty(), includes, excludes, 0) == Seq::<Seq<char>>::empty(),
{
    lemma_definition_inputs(paths, path, includes, excludes, paths.len() as int);
}

proof fn lemma_definition_inputs(
    paths: Seq<Seq<char>>,
    path: Seq<char>,
    includes: Seq<Seq<char>>,
    excludes: Seq<Seq<char>>,
    n: int,
)
    requires
        0 <= n <= paths.len(),
    ensures
        def::paths_included(paths.push(path), includes, excludes, n) == def::paths_included(
            paths,
            includes,
            excludes,
            n,
        ),
    decreases n,
{
    if n > 0 {
        lemma_definition_inputs(paths, path, includes, excludes, n - 1);
    }
}

/// The inputs that are read for an export surface are those that are wanted, in their order, and as
/// often as they are given.
pub proof fn law_surface_inputs_are_selected(
    paths: Seq<Seq<char>>,
    path: Seq<char>,
    includes: Seq<Seq<char>>,
    excludes: Seq<Seq<char>>,
)
    ensures
        ({
            let n = paths.len() as int;
            let before = exports::paths_included(paths, includes, excludes, n);
            let after = exports::paths_included(paths.push(path), includes, excludes, n + 1);
            after == if is_included(path, includes, excludes) {
                before.push(path)
            } else {
                before
            }
        }),
        exports::paths_included(Seq::empty(), includes, excludes, 0) == Seq::<Seq<char>>::empty(),
{
    lemma_surface_inputs(paths, path, includes, excludes, paths.len() as int);
}

proof fn lemma_surface_inputs(
    paths: Seq<Seq<char>>,
    path: Seq<char>,
    includes: Seq<Seq<char>>,
    excludes: Seq<Seq<char>>,
    n: int,
)
    requires
        0 <= n <= paths.len(),
    ensures
        exports::paths_included(paths.push(path), includes, excludes, n) == exports::paths_included(
            paths,
            includes,
            excludes,
            n,
        ),
    decreases n,
{
    if n > 0 {
        lemma_surface_inputs(paths, path, includes, excludes, n - 1);
    }
}

proof fn lemma_mixed(pairs: Seq<(Seq<u8>, bool)>, n: int, name: Seq<u8>)
    requires
        0 <= n <= pairs.len(),
    ensures
        mixed_names(pairs, n).contains(name) <==> exists|i: int|
            0 <= i < n && (#[trigger] pairs[i]).0 == name && pairs[i].1 != first_named(pairs, name),
    decreases n,
{
    if n > 0 {
        lemma_mixed(pairs, n - 1, name);
        let before = mixed_names(pairs, n - 1);
        let now = mixed_names(pairs, n);
        let last = pairs[n - 1];
        if first_named(pairs, last.0) != last.1 {
            assert(now == before.push(last.0));
            assert(now.last() == last.0);
            if before.contains(name) {
                let k = choose|k: int| 0 <= k < before.len() && before[k] == name;
                assert(now[k] == name);
            }
            if now.contains(name) && last.0 != name {
                let k = choose|k: int| 0 <= k < now.len() && now[k] == name;
                assert(before[k] == name);
            }
        }
    }
}

/// The names that come up both as code and as data are those of two symbols of which one is data and
/// the other is not.
pub proof fn law_mixed_names_are_code_and_data(pairs: Seq<(Seq<u8>, bool)>, name: Seq<u8>)
    ensures
        mixed_names(pairs, pairs.len() as int).contains(name) <==> exists|i: int, j: int|
            0 <= i < pairs.len() && 0 <= j < pairs.len() && (#[trigger] pairs[i]).0 == name && (
            #[trigger] pairs[j]).0 == name && pairs[i].1 && !pairs[j].1,
{
    let n = pairs.len() as int;
    lemma_mixed(pairs, n, name);
    let names = first_parts(pairs);
    names.index_of_first_ensures(name);
    if exists|i: int| 0 <= i < n && (#[trigger] pairs[i]).0 == name {
        let i = choose|i: int| 0 <= i < n && (#[trigger] pairs[i]).0 == name;
        assert(names[i] == name);
        let first = names.index_of_first(name)->0;
        assert(names[first] == pairs[first].0);
        assert(pairs[first].1 == first_named(pairs, name));
    }
}

/// A manifest is asked for with a binary or a PDB to read, and with a file to write or one to embed it
/// in. Of the two inputs the PDB is read.
pub proof fn law_manifest_needs_input_and_output(args: manifest::Args)
    ensures
        source_of(args) is Ok <==> (args.pdb is Some || args.binary is Some) && (args.out is Some
            || args.embed is Some),
        source_of(args) is Ok ==> (source_of(args) == Ok::<Source, ManifestFault>(Source::Pdb)
            <==> args.pdb is Some),
        source_of(args) is Ok ==> (source_of(args) == Ok::<Source, ManifestFault>(Source::Binary)
            <==> args.pdb is None),
        source_of(args) == Err::<Source, ManifestFault>(ManifestFault::NoInput) <==> args.pdb is None
            && args.binary is None,
{
}

/// Imports bind to the module that is asked for, whatever the definition names, and to the one that it
/// names where none is asked for. There is no import library without a module name.
pub proof fn law_asked_module_comes_first(
    named: Seq<char>,
    other: Seq<char>,
    asked: Seq<char>,
    imports: usize,
)
    ensures
        asked.len() > 0 ==> bound_module(Some((named, imports)), Some(asked)) == Ok::<
            Seq<char>,
            StubError,
        >(asked),
        bound_module(Some((named, imports)), Some(asked)) == bound_module(
            Some((other, imports)),
            Some(asked),
        ),
        named.len() > 0 ==> bound_module(Some((named, imports)), None) == Ok::<
            Seq<char>,
            StubError,
        >(named),
        asked.len() == 0 ==> bound_module(Some((named, imports)), Some(asked)) is Err,
        named.len() == 0 ==> bound_module(Some((named, imports)), None) is Err,
        bound_module(None, Some(asked)) is Err,
{
}

} // verus!
