//! What is done with metadata, and what comes of it.

use vstd::prelude::*;
use crate::order::{goes_first, is_order, lemma_order_unique, order_form};
use crate::text::{decimal_text, decimal_value, is_decimal, HEX_DIGITS};
use crate::util::modmeta::agreement::{agreement, agreement_from, same_services};
use crate::util::modmeta::record::{Export, Import, ServiceView};
use crate::util::modmeta::section::{export_views, import_views, MetaFile};
use super::update::{
    array_text, export_text, exports_text, import_text, imports_text, merged, object_text,
    parsed_json, pretty_object, service_members, string_text, updated_json, JsonFault,
};
use super::{service_lt, steps_of, verified_from};

verus! {

/// Whether two libraries have the same ABI version, and every service as often among their imports and
/// among their exports.
pub open spec fn have_the_same(a: MetaFile, b: MetaFile) -> bool {
    &&& a.abi_version == b.abi_version
    &&& forall|s: ServiceView| #[trigger]
        import_views(a.imports@).to_multiset().count(s) == import_views(
            b.imports@,
        ).to_multiset().count(s)
    &&& forall|s: ServiceView| #[trigger]
        export_views(a.exports@).to_multiset().count(s) == export_views(
            b.exports@,
        ).to_multiset().count(s)
}

proof fn lemma_same(a: MetaFile, b: MetaFile)
    ensures
        have_the_same(a, b) <==> a.abi_version == b.abi_version && same_services(a, b),
{
    if have_the_same(a, b) {
        assert(import_views(a.imports@).to_multiset() =~= import_views(b.imports@).to_multiset());
        assert(export_views(a.exports@).to_multiset() =~= export_views(b.exports@).to_multiset());
    }
}

/// The libraries of a package agree exactly where each of them has the same ABI version, imports and
/// exports as the first.
pub proof fn law_agreeing_libraries_have_the_same(files: Seq<MetaFile>)
    requires
        0 < files.len() <= usize::MAX,
    ensures
        agreement(files) is Ok <==> forall|k: int|
            0 <= k < files.len() ==> have_the_same(files[0], #[trigger] files[k]),
{
    lemma_agreement(files, 1);
    lemma_same(files[0], files[0]);
    if agreement(files) is Ok {
        assert forall|k: int| 0 <= k < files.len() implies have_the_same(
            files[0],
            #[trigger] files[k],
        ) by {
            if k == 0 {
                lemma_same(files[0], files[0]);
            }
        }
    }
}

proof fn lemma_agreement(files: Seq<MetaFile>, i: int)
    requires
        1 <= i,
        files.len() > 0,
    ensures
        agreement_from(files, i) is Ok <==> forall|k: int|
            i <= k < files.len() ==> have_the_same(files[0], #[trigger] files[k]),
    decreases files.len() - i,
{
    if i < files.len() {
        lemma_agreement(files, i + 1);
        lemma_same(files[0], files[i]);
        if agreement_from(files, i) is Ok {
            assert forall|k: int| i <= k < files.len() implies have_the_same(
                files[0],
                #[trigger] files[k],
            ) by {}
        } else {
            if agreement_from(files, i + 1) is Ok {
                assert(!have_the_same(files[0], files[i]));
            }
        }
    }
}

/// Whether two libraries have the same ABI version and the same services, however often.
pub open spec fn have_the_same_sets(a: MetaFile, b: MetaFile) -> bool {
    &&& a.abi_version == b.abi_version
    &&& forall|s: ServiceView| #[trigger]
        import_views(a.imports@).contains(s) <==> import_views(b.imports@).contains(s)
    &&& forall|s: ServiceView| #[trigger]
        export_views(a.exports@).contains(s) <==> export_views(b.exports@).contains(s)
}

/// What `--check` verifies: that each library has the ABI version and the services of the first.
pub proof fn law_verified_libraries_have_the_same_sets(files: Seq<MetaFile>, i: int)
    requires
        0 <= i,
        files.len() > 0,
    ensures
        verified_from(files, i) is Ok <==> forall|k: int|
            i <= k < files.len() ==> have_the_same_sets(#[trigger] files[k], files[0]),
    decreases files.len() - i,
{
    if i < files.len() {
        law_verified_libraries_have_the_same_sets(files, i + 1);
        lemma_sets(files[i], files[0]);
        if verified_from(files, i) is Ok {
            assert forall|k: int| i <= k < files.len() implies have_the_same_sets(
                #[trigger] files[k],
                files[0],
            ) by {}
        } else {
            if verified_from(files, i + 1) is Ok {
                assert(!have_the_same_sets(files[i], files[0]));
            }
        }
    }
}

proof fn lemma_sets(a: MetaFile, b: MetaFile)
    ensures
        have_the_same_sets(a, b) <==> a.abi_version == b.abi_version && super::same_service_sets(
            a,
            b,
        ),
{
    let (ia, ib) = (import_views(a.imports@), import_views(b.imports@));
    let (ea, eb) = (export_views(a.exports@), export_views(b.exports@));
    assert forall|s: ServiceView| #[trigger] ia.to_set().contains(s) <==> ia.contains(s) by {}
    assert forall|s: ServiceView| #[trigger] ib.to_set().contains(s) <==> ib.contains(s) by {}
    assert forall|s: ServiceView| #[trigger] ea.to_set().contains(s) <==> ea.contains(s) by {}
    assert forall|s: ServiceView| #[trigger] eb.to_set().contains(s) <==> eb.contains(s) by {}
    if have_the_same_sets(a, b) {
        assert forall|s: ServiceView| #[trigger] ia.to_set().contains(s) <==> ib.to_set().contains(
            s,
        ) by {
            assert(ia.contains(s) <==> ib.contains(s));
        }
        assert(ia.to_set() =~= ib.to_set());
        assert forall|s: ServiceView| #[trigger] ea.to_set().contains(s) <==> eb.to_set().contains(
            s,
        ) by {
            assert(ea.contains(s) <==> eb.contains(s));
        }
        assert(ea.to_set() =~= eb.to_set());
    }
    if super::same_service_sets(a, b) {
        assert forall|s: ServiceView| #[trigger] ia.contains(s) <==> ib.contains(s) by {
            assert(ia.to_set().contains(s) <==> ib.to_set().contains(s));
        }
        assert forall|s: ServiceView| #[trigger] ea.contains(s) <==> eb.contains(s) by {
            assert(ea.to_set().contains(s) <==> eb.to_set().contains(s));
        }
    }
}

/// Updating a file always checks the libraries first, and the metadata is dumped where nothing else is
/// asked for or an output file is named.
pub proof fn law_updating_checks_first(inputs: nat, check: bool, out: bool, update: bool)
    ensures
        steps_of(inputs, check, out, update) is None <==> inputs == 0,
        steps_of(inputs, check, out, update) matches Some(steps) ==> {
            &&& steps.update == update
            &&& steps.update ==> steps.check
            &&& check ==> steps.check
            &&& !check && !update ==> !steps.check && steps.dump
            &&& out ==> steps.dump
            &&& (check || update) && !out ==> !steps.dump
        },
{
}

/// Services are ordered by their ids first, then by their versions, then by their flags: the order is
/// one way or the other between any two that differ.
pub proof fn law_versions_decide_between_same_ids(a: ServiceView, b: ServiceView)
    requires
        a.service_id == b.service_id,
    ensures
        a.major < b.major ==> service_lt(a, b) && !service_lt(b, a),
        a.major == b.major && a.minor < b.minor ==> service_lt(a, b) && !service_lt(b, a),
        a.major == b.major && a.minor == b.minor && !a.flag && b.flag ==> service_lt(a, b)
            && !service_lt(b, a),
        !service_lt(a, a),
{
}

/// The number that a decimal text stands for is the number that was written.
pub proof fn law_decimal_text_is_read_back(v: int)
    requires
        0 <= v,
    ensures
        is_decimal(decimal_text(v)),
        decimal_value(decimal_text(v)) == v,
    decreases v,
{
    let text = decimal_text(v);
    assert(HEX_DIGITS@[v % 10] as int == '0' as int + v % 10);
    if v >= 10 {
        law_decimal_text_is_read_back(v / 10);
        assert(text.drop_last() =~= decimal_text(v / 10));
        assert forall|i: int| 0 <= i < text.len() implies '0' <= #[trigger] text[i] <= '9' by {
            if i < text.len() - 1 {
                assert(text[i] == decimal_text(v / 10)[i]);
            }
        }
    } else {
        assert(text.drop_last() =~= Seq::empty());
        assert(decimal_value(Seq::<char>::empty()) == 0);
    }
}

/// The members of a service are its id, its major version, and its minor version and its flag under the
/// names that they are given, and no others.
pub proof fn law_services_have_four_members(
    service: ServiceView,
    minor: Seq<char>,
    flag: Seq<char>,
    name: Seq<char>,
)
    requires
        minor == "min_minor"@ && flag == "optional"@ || minor == "minor"@ && flag == "deferred"@,
    ensures
        ({
            let members = service_members(service, minor, flag);
            &&& members.contains_key("service_id"@) && members["service_id"@] == string_text(
                service.service_id,
            )
            &&& members.contains_key("major"@) && members["major"@] == decimal_text(
                service.major as int,
            )
            &&& members.contains_key(minor) && members[minor] == decimal_text(service.minor as int)
            &&& members.contains_key(flag) && members[flag] == (if service.flag {
                "true"@
            } else {
                "false"@
            })
            &&& members.contains_key(name) ==> name == "service_id"@ || name == "major"@ || name
                == minor || name == flag
        }),
{
    reveal_strlit("service_id");
    reveal_strlit("major");
    reveal_strlit("min_minor");
    reveal_strlit("minor");
    reveal_strlit("optional");
    reveal_strlit("deferred");
    assert("service_id"@.len() == 10 && "major"@.len() == 5 && "min_minor"@.len() == 9
        && "optional"@.len() == 8 && "minor"@.len() == 5 && "deferred"@.len() == 8);
    assert("major"@[1] == 'a' && "minor"@[1] == 'i');
}

/// A package file is updated where it holds a JSON object. The new text ends with a line feed, and what
/// it holds is what it held before, but for the ABI version and the services.
pub proof fn law_update_keeps_the_rest_of_the_file(text: Seq<char>, meta: MetaFile)
    ensures
        parsed_json(text) is None ==> updated_json(text, meta) == Err::<Seq<char>, JsonFault>(
            JsonFault::NotJson,
        ),
        parsed_json(text) == Some(None::<Map<Seq<char>, Seq<char>>>) ==> updated_json(text, meta)
            == Err::<Seq<char>, JsonFault>(JsonFault::NotObject),
        updated_json(text, meta) matches Ok(out) ==> out.len() > 0 && out.last() == '\n' && exists|
            after: Map<Seq<char>, Seq<char>>,
        | #[trigger]
            pretty_object(after) == Some(out.drop_last()) && is_update(
                parsed_json(text)->0->0,
                after,
                meta,
            ),
{
    reveal_strlit("abi");
    reveal_strlit("imports");
    reveal_strlit("exports");
    if let Ok(out) = updated_json(text, meta) {
        let before = parsed_json(text)->0->0;
        let after = merged(
            before,
            decimal_text(meta.abi_version as int),
            imports_text(meta.imports@),
            exports_text(meta.exports@),
        );
        assert("abi"@.len() != "imports"@.len());
        assert("abi"@.len() != "exports"@.len());
        assert("imports"@[0] != "exports"@[0]);
        assert(out.drop_last() =~= pretty_object(after)->0);
        law_decimal_text_is_read_back(meta.abi_version as int);
        assert(is_update(before, after, meta));
    }
}

/// Whether the members of a package file are those of another with what a library says.
pub open spec fn is_update(
    before: Map<Seq<char>, Seq<char>>,
    after: Map<Seq<char>, Seq<char>>,
    meta: MetaFile,
) -> bool {
    &&& after.contains_key("abi"@) && is_decimal(after["abi"@]) && decimal_value(after["abi"@])
        == meta.abi_version
    &&& after.contains_key("imports"@) && after["imports"@] == imports_text(meta.imports@)
    &&& after.contains_key("exports"@) && after["exports"@] == exports_text(meta.exports@)
    &&& forall|name: Seq<char>|
        name != "abi"@ && name != "imports"@ && name != "exports"@ ==> (#[trigger] after.contains_key(
            name,
        ) <==> before.contains_key(name)) && (before.contains_key(name) ==> after[name]
            == before[name])
}

/// Whether an order lists every position once, by the services at them; the same services keep theirs.
pub open spec fn lists_services(services: Seq<ServiceView>, order: Seq<usize>) -> bool {
    &&& order.len() == services.len()
    &&& forall|k: int| 0 <= k < order.len() ==> (#[trigger] order[k]) < services.len()
    &&& forall|i: usize| i < services.len() ==> #[trigger] order.contains(i)
    &&& forall|a: int, b: int|
        0 <= a < b < order.len() ==> service_lt(
            services[(#[trigger] order[a]) as int],
            services[(#[trigger] order[b]) as int],
        ) || services[order[a] as int] == services[order[b] as int] && order[a] < order[b]
}

/// The imports and the exports are written in the order of their services, each once.
pub proof fn law_services_are_written_in_order(
    imports: Seq<Import>,
    exports: Seq<Export>,
    import_order: Seq<usize>,
    export_order: Seq<usize>,
)
    requires
        lists_services(import_views(imports), import_order),
        lists_services(export_views(exports), export_order),
    ensures
        imports_text(imports) == array_text(
            Seq::new(
                imports.len(),
                |k: int|
                    object_text(
                        service_members(
                            imports[import_order[k] as int]@,
                            "min_minor"@,
                            "optional"@,
                        ),
                    ),
            ),
        ),
        exports_text(exports) == array_text(
            Seq::new(
                exports.len(),
                |k: int|
                    object_text(
                        service_members(exports[export_order[k] as int]@, "minor"@, "deferred"@),
                    ),
            ),
        ),
{
    assert(is_order(imports, import_order, 0, imports.len() as int)) by {
        assert forall|a: int, b: int| 0 <= a < b < import_order.len() implies goes_first(
            imports,
            (#[trigger] import_order[a]) as int,
            (#[trigger] import_order[b]) as int,
        ) by {
            assert(import_views(imports)[import_order[a] as int] == imports[import_order[a] as int]@);
            assert(import_views(imports)[import_order[b] as int] == imports[import_order[b] as int]@);
        }
    }
    assert(is_order(exports, export_order, 0, exports.len() as int)) by {
        assert forall|a: int, b: int| 0 <= a < b < export_order.len() implies goes_first(
            exports,
            (#[trigger] export_order[a]) as int,
            (#[trigger] export_order[b]) as int,
        ) by {
            assert(export_views(exports)[export_order[a] as int] == exports[export_order[a] as int]@);
            assert(export_views(exports)[export_order[b] as int] == exports[export_order[b] as int]@);
        }
    }
    lemma_order_unique(imports, import_order);
    lemma_order_unique(exports, export_order);
    assert(Seq::new(
        order_form(imports).len(),
        |k: int| import_text(imports[order_form(imports)[k] as int]@),
    ) =~= Seq::new(
        imports.len(),
        |k: int|
            object_text(
                service_members(imports[import_order[k] as int]@, "min_minor"@, "optional"@),
            ),
    ));
    assert(Seq::new(
        order_form(exports).len(),
        |k: int| export_text(exports[order_form(exports)[k] as int]@),
    ) =~= Seq::new(
        exports.len(),
        |k: int|
            object_text(
                service_members(exports[export_order[k] as int]@, "minor"@, "deferred"@),
            ),
    ));
}

} // verus!
