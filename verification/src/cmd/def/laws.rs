//! What a `.def` never exports.

use vstd::prelude::*;
use crate::bytes::begins_any;
use crate::order::{lemma_sorted_form_exists, sorted_form};
use crate::util::coff::{coff_object, CoffView};
use crate::util::objfile::{archive_members, is_archive};
use super::forward::{added, forwarders_of, is_forwarded, ForwardDll};
use super::{
    exported, file_exports, first_parts, in_name_order, is_skipped, member_exports, path_exports,
    surface, Args,
};

verus! {

/// Whether a name can be exported: it is none of the compiler or the runtime and not excluded, and of
/// a library that is scanned for C names it is not mangled.
pub open spec fn is_wanted(name: Seq<u8>, c_only: bool, exclude: Seq<String>) -> bool {
    name.len() > 0 && !is_skipped(name) && !begins_any(name, exclude) && !(c_only && name[0] == 0x3f)
}

/// Whether all names can be exported.
pub open spec fn all_wanted(
    pairs: Seq<(Seq<u8>, bool)>,
    c_only: bool,
    exclude: Seq<String>,
) -> bool {
    forall|i: int| 0 <= i < pairs.len() ==> is_wanted((#[trigger] pairs[i]).0, c_only, exclude)
}

proof fn lemma_object_wanted(object: CoffView, c_only: bool, exclude: Seq<String>, n: int)
    ensures
        all_wanted(exported(object, c_only, exclude, n), c_only, exclude),
    decreases n,
{
    if n > 0 {
        lemma_object_wanted(object, c_only, exclude, n - 1);
    }
}

proof fn lemma_members_wanted(
    members: Seq<Seq<u8>>,
    c_only: bool,
    exclude: Seq<String>,
    n: int,
)
    ensures
        all_wanted(member_exports(members, c_only, exclude, n), c_only, exclude),
    decreases n,
{
    if n > 0 {
        lemma_members_wanted(members, c_only, exclude, n - 1);
        if let Some(object) = coff_object(members[n - 1]) {
            lemma_object_wanted(object, c_only, exclude, object.symbols.len() as int);
        }
    }
}

proof fn lemma_path_wanted(data: Seq<u8>, at: usize, c_only: bool, exclude: Seq<String>)
    ensures
        path_exports(data, at, c_only, exclude) matches Ok(found) ==> all_wanted(
            found,
            c_only,
            exclude,
        ),
{
    if is_archive(data) {
        if let Ok(members) = archive_members(data) {
            lemma_members_wanted(members, c_only, exclude, members.len() as int);
        }
    } else if let Some(object) = coff_object(data) {
        lemma_object_wanted(object, c_only, exclude, object.symbols.len() as int);
    }
}

/// What is scanned from files exports no symbol of the compiler or the runtime, none that is
/// excluded, and from libraries that are scanned for C names none that is mangled.
pub proof fn law_scanned_names_are_wanted(
    files: Seq<Seq<u8>>,
    base: int,
    c_only: bool,
    exclude: Seq<String>,
    n: int,
)
    ensures
        file_exports(files, base, c_only, exclude, n) matches Ok(found) ==> all_wanted(
            found,
            c_only,
            exclude,
        ),
    decreases n,
{
    if n > 0 {
        law_scanned_names_are_wanted(files, base, c_only, exclude, n - 1);
        lemma_path_wanted(files[n - 1], (base + n - 1) as usize, c_only, exclude);
    }
}

/// Whether all names are forwarded.
pub open spec fn all_forwarded(
    pairs: Seq<(Seq<u8>, Seq<u8>)>,
    prefixes: Seq<String>,
    exclude: Seq<String>,
) -> bool {
    forall|i: int|
        0 <= i < pairs.len() ==> is_forwarded((#[trigger] pairs[i]).0, prefixes, exclude)
}

proof fn lemma_added_forwarded(
    before: Seq<(Seq<u8>, Seq<u8>)>,
    names: Seq<Seq<u8>>,
    module: Seq<u8>,
    at: usize,
    prefixes: Seq<String>,
    exclude: Seq<String>,
    n: int,
)
    requires
        all_forwarded(before, prefixes, exclude),
    ensures
        added(before, names, module, at, prefixes, exclude, n) matches Ok(found) ==> all_forwarded(
            found,
            prefixes,
            exclude,
        ),
    decreases n,
{
    if n > 0 {
        lemma_added_forwarded(before, names, module, at, prefixes, exclude, n - 1);
    }
}

proof fn lemma_forwarders(
    dlls: Seq<ForwardDll>,
    prefixes: Seq<String>,
    exclude: Seq<String>,
    n: int,
)
    ensures
        forwarders_of(dlls, prefixes, exclude, n) matches Ok(found) ==> all_forwarded(
            found,
            prefixes,
            exclude,
        ),
    decreases n,
{
    if n > 0 {
        lemma_forwarders(dlls, prefixes, exclude, n - 1);
        if let Ok(before) = forwarders_of(dlls, prefixes, exclude, n - 1) {
            assert forall|names: Seq<Seq<u8>>, module: Seq<u8>, at: usize, m: int|
                #[trigger] added(before, names, module, at, prefixes, exclude, m) matches Ok(
                found,
            ) ==> all_forwarded(found, prefixes, exclude) by {
                lemma_added_forwarded(before, names, module, at, prefixes, exclude, m);
            }
        }
    }
}

/// A name that stands in the order of names is one of those that were ordered.
proof fn lemma_ordered_name<V>(pairs: Seq<(Seq<u8>, V)>, i: int) -> (k: int)
    requires
        0 <= i < in_name_order(pairs).len(),
    ensures
        0 <= k < pairs.len(),
        pairs[k].0 == in_name_order(pairs)[i].0,
{
    let names = sorted_form::<Vec<u8>>(first_parts(pairs));
    lemma_sorted_form_exists::<Vec<u8>>(first_parts(pairs));
    assert(names.contains(names[i]));
    assert(first_parts(pairs).contains(names[i]));
    choose|k: int| 0 <= k < first_parts(pairs).len() && first_parts(pairs)[k] == names[i]
}

/// No line of a `.def` is for a symbol of the compiler or the runtime or for one that is excluded,
/// and no forwarder is for a symbol without one of the prefixes that are asked for.
pub proof fn law_definition_lists_only_wanted_names(
    objects: Seq<Seq<u8>>,
    libs: Seq<Seq<u8>>,
    dlls: Seq<ForwardDll>,
    args: Args,
)
    ensures
        surface(objects, libs, dlls, args) matches Ok((local, forward)) ==> all_wanted(
            local,
            false,
            args.exclude_sym@,
        ) && all_forwarded(forward, args.forward_sym_prefix@, args.exclude_sym@),
{
    let exclude = args.exclude_sym@;
    let prefixes = args.forward_sym_prefix@;
    if let Ok((local, forward)) = surface(objects, libs, dlls, args) {
        let from_objects = file_exports(objects, 0, false, exclude, objects.len() as int)->Ok_0;
        let from_libs = file_exports(
            libs,
            objects.len() as int,
            true,
            exclude,
            libs.len() as int,
        )->Ok_0;
        let found = forwarders_of(dlls, prefixes, exclude, dlls.len() as int)->Ok_0;
        law_scanned_names_are_wanted(objects, 0, false, exclude, objects.len() as int);
        law_scanned_names_are_wanted(libs, objects.len() as int, true, exclude, libs.len() as int);
        lemma_forwarders(dlls, prefixes, exclude, dlls.len() as int);
        let all = from_objects + from_libs;
        assert forall|i: int| 0 <= i < local.len() implies is_wanted(
            (#[trigger] local[i]).0,
            false,
            exclude,
        ) by {
            let k = lemma_ordered_name(all, i);
            if k < from_objects.len() {
                assert(all[k] == from_objects[k]);
            } else {
                assert(all[k] == from_libs[k - from_objects.len()]);
            }
        }
        assert forall|i: int| 0 <= i < forward.len() implies is_forwarded(
            (#[trigger] forward[i]).0,
            prefixes,
            exclude,
        ) by {
            let k = lemma_ordered_name(found, i);
            assert(is_forwarded(found[k].0, prefixes, exclude));
        }
    }
}

} // verus!
