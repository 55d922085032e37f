//! What an export surface holds, and what it never holds.

use vstd::prelude::*;
use crate::bytes::begins_any;
use crate::order::lemma_sorted_form_exists;
use crate::util::objfile::{
    archive_members, file_format, file_symbols, is_archive, Format, SymbolView,
};
use super::{
    encoded, file_names, is_skipped, member_names, names_exported, object_names, path_names,
    surface, Args,
};

verus! {

/// Whether a name can be exported: it is none of the compiler or the runtime in the format of its
/// object, and not excluded.
pub open spec fn is_wanted(name: Seq<u8>, exclude: Seq<String>) -> bool {
    name.len() > 0 && !begins_any(name, exclude) && exists|macho: bool|
        !(#[trigger] is_skipped(macho, name))
}

/// Whether all names can be exported.
pub open spec fn all_wanted(names: Seq<Seq<u8>>, exclude: Seq<String>) -> bool {
    forall|i: int| 0 <= i < names.len() ==> is_wanted(#[trigger] names[i], exclude)
}

proof fn lemma_symbols_wanted(
    symbols: Seq<SymbolView>,
    macho: bool,
    c_only: bool,
    exclude: Seq<String>,
    n: int,
)
    ensures
        all_wanted(names_exported(symbols, macho, c_only, exclude, n), exclude),
    decreases n,
{
    if n > 0 {
        lemma_symbols_wanted(symbols, macho, c_only, exclude, n - 1);
    }
}

proof fn lemma_object_wanted(data: Seq<u8>, c_only: bool, exclude: Seq<String>)
    ensures
        object_names(data, c_only, exclude) matches Some(names) ==> all_wanted(names, exclude),
{
    if let (Some(format), Some(symbols)) = (file_format(data), file_symbols(data)) {
        lemma_symbols_wanted(
            symbols,
            format == Format::MachO,
            c_only,
            exclude,
            symbols.len() as int,
        );
    }
}

proof fn lemma_members_wanted(
    members: Seq<Seq<u8>>,
    c_only: bool,
    exclude: Seq<String>,
    n: int,
)
    ensures
        all_wanted(member_names(members, c_only, exclude, n), exclude),
    decreases n,
{
    if n > 0 {
        lemma_members_wanted(members, c_only, exclude, n - 1);
        lemma_object_wanted(members[n - 1], c_only, exclude);
    }
}

proof fn lemma_files_wanted(
    files: Seq<Seq<u8>>,
    base: int,
    c_only: bool,
    exclude: Seq<String>,
    n: int,
)
    ensures
        file_names(files, base, c_only, exclude, n) matches Ok(names) ==> all_wanted(names, exclude),
    decreases n,
{
    if n > 0 {
        lemma_files_wanted(files, base, c_only, exclude, n - 1);
        let data = files[n - 1];
        lemma_object_wanted(data, c_only, exclude);
        if is_archive(data) {
            if let Ok(members) = archive_members(data) {
                lemma_members_wanted(members, c_only, exclude, members.len() as int);
            }
        }
        assert(path_names(data, (base + n - 1) as usize, c_only, exclude) matches Ok(names)
            ==> all_wanted(names, exclude));
    }
}

/// Every name that is asked for verbatim is on the surface, and every other name there is none of the
/// compiler or the runtime and not excluded.
pub proof fn law_surface_holds_only_wanted_names(
    objects: Seq<Seq<u8>>,
    libs: Seq<Seq<u8>>,
    args: Args,
)
    ensures
        surface(objects, libs, args) matches Ok(names) ==> {
            &&& forall|i: int|
                0 <= i < names.len() ==> is_wanted(#[trigger] names[i], args.exclude_sym@)
                    || encoded(args.extra_sym@).contains(names[i])
            &&& forall|k: int|
                0 <= k < args.extra_sym@.len() ==> names.contains(
                    #[trigger] encoded(args.extra_sym@)[k],
                )
        },
{
    if let Ok(names) = surface(objects, libs, args) {
        let exclude = args.exclude_sym@;
        let extra = encoded(args.extra_sym@);
        let from_objects = file_names(objects, 0, false, exclude, objects.len() as int)->Ok_0;
        let from_libs = file_names(
            libs,
            objects.len() as int,
            true,
            exclude,
            libs.len() as int,
        )->Ok_0;
        let all = from_objects + from_libs + extra;
        lemma_files_wanted(objects, 0, false, exclude, objects.len() as int);
        lemma_files_wanted(libs, objects.len() as int, true, exclude, libs.len() as int);
        lemma_sorted_form_exists::<Vec<u8>>(all);
        let scanned = from_objects.len() + from_libs.len();
        assert forall|i: int| 0 <= i < names.len() implies is_wanted(#[trigger] names[i], exclude)
            || extra.contains(names[i]) by {
            assert(names.contains(names[i]));
            assert(all.contains(names[i]));
            let k = choose|k: int| 0 <= k < all.len() && all[k] == names[i];
            if k < from_objects.len() {
                assert(all[k] == from_objects[k]);
            } else if k < scanned {
                assert(all[k] == from_libs[k - from_objects.len()]);
            } else {
                assert(all[k] == extra[k - scanned]);
            }
        }
        assert forall|k: int| 0 <= k < args.extra_sym@.len() implies names.contains(
            #[trigger] extra[k],
        ) by {
            assert(all[scanned + k] == extra[k]);
            assert(all.contains(extra[k]));
        }
    }
}

} // verus!
