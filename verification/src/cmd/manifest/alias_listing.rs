//! Which functions get aliases by their source files.

use vstd::prelude::*;
use vstd::utf8::*;
use crate::bytes::begins;
use crate::cmd::def::listing::lemma_contained;
use crate::text::begins_with;
use crate::util::manifest::format::SymbolModel;
use crate::util::objfile::{
    file_arch_name, file_base, file_symbol_names, file_symbols, SymbolClass, SymbolView,
};
use super::aliases::{alias_of, binary_alias, canonical, holds_text, removed};
use super::apple::{
    defined_functions, linked_symbol, mapped_alias, mapped_aliases, with_mapped, with_objects,
    MapEntry, MappedObject,
};
use super::binary::{lookup_text, relative};
use super::dwarf::{
    aliases_of, has_symbol, is_cpp, last_source, linkage_name, owner_of, range_aliases, unit_source,
    with_ranges, with_subprograms, with_units, CodeView, DwarfError, EntryFact, Language,
    Subprogram, UnitCode, UnitFact,
};
use super::listing::{
    begins_with_one, compiler_prefixes, is_display_of, law_compiler_names_are_skipped,
    law_special_names_have_their_prefixes, lemma_display, special_prefixes,
};
use super::path::{source_in, PathView};

verus! {

/// Whether a function is called `shown` in its alias: an ordinary function whose name neither a compiler
/// nor a linker made for itself and that is no special one. A mangled name is shown demangled.
pub open spec fn is_shown_as(name: Seq<char>, ordinary: bool, shown: Seq<char>) -> bool {
    &&& ordinary
    &&& !begins_with_one(encode_utf8(name), compiler_prefixes())
    &&& !begins_with_one(encode_utf8(name), special_prefixes())
    &&& if begins(encode_utf8(name), encode_utf8("_Z"@)) {
        is_display_of(shown, name)
    } else {
        shown == name
    }
}

/// Whether an entry is the alias of a function: its source file, `#` and its name without anonymous
/// namespaces, at its address, marked as code and as an alias besides its own flags.
pub open spec fn is_alias(entry: SymbolModel, source: Seq<char>, symbol: CodeView) -> bool {
    exists|shown: Seq<char>|
        #[trigger] is_shown_as(symbol.name, symbol.ordinary, shown) && (canonical(
            shown,
        ) matches Some(plain) && {
            &&& entry.name == encode_utf8(source + seq!['#'] + plain)
            &&& entry.rva == symbol.rva
            &&& entry.flags == symbol.flags | 65
        })
}

/// The alias of a function, as it is made.
spec fn made_alias(source: Seq<char>, symbol: CodeView) -> Option<SymbolModel> {
    match binary_alias(symbol.name, symbol.ordinary) {
        None => None,
        Some(name) => alias_of(source, name, symbol.rva, symbol.flags),
    }
}

proof fn lemma_made(source: Seq<char>, symbol: CodeView, entry: SymbolModel)
    ensures
        made_alias(source, symbol) == Some(entry) <==> is_alias(entry, source, symbol),
{
    let name = symbol.name;
    law_compiler_names_are_skipped(encode_utf8(name));
    law_special_names_have_their_prefixes(encode_utf8(name));
    lemma_display(name);
    reveal_strlit("#");
    assert("#"@ =~= seq!['#']);
    let flags = symbol.flags;
    assert((flags | 1) | 64 == flags | 65) by (bit_vector);
    match binary_alias(name, symbol.ordinary) {
        Some(shown) => {
            assert(is_shown_as(name, symbol.ordinary, shown));
            assert forall|other: Seq<char>| #[trigger]
                is_shown_as(name, symbol.ordinary, other) implies other == shown by {}
        },
        None => {
            assert forall|other: Seq<char>| !#[trigger]
                is_shown_as(name, symbol.ordinary, other) by {}
        },
    }
}

/// The language codes of C and C++ in DWARF.
pub proof fn law_languages_of_c(code: u16)
    ensures
        is_cpp(code) <==> seq![1u16, 2, 4, 12, 25, 26, 29, 33, 42, 43, 44].contains(code),
{
    let all = seq![1u16, 2, 4, 12, 25, 26, 29, 33, 42, 43, 44];
    assert(all[0] == 1 && all[1] == 2 && all[2] == 4 && all[3] == 12 && all[4] == 25 && all[5] == 26
        && all[6] == 29 && all[7] == 33 && all[8] == 42 && all[9] == 43 && all[10] == 44);
}

/// A C or C++ unit with a name stands for its source file below the root, and a unit in another language
/// for none.
pub proof fn law_units_have_their_source(unit: UnitFact, root: PathView)
    ensures
        unit.language matches Language::Code(code) && is_cpp(code) && unit.name is Some
            && unit.name->Some_0@.len() > 0 && unit.comp_dir is Some ==> unit_source(unit, root)
            == Ok::<Option<Seq<char>>, DwarfError>(
            source_in(root, unit.name->Some_0@, unit.comp_dir->Some_0@),
        ),
        unit.language matches Language::Code(code) && !is_cpp(code) ==> unit_source(unit, root)
            == Ok::<Option<Seq<char>>, DwarfError>(None),
        unit.language == Language::Other ==> unit_source(unit, root) == Ok::<
            Option<Seq<char>>,
            DwarfError,
        >(None),
{
}

/// Whether a symbol in a range has the alias, and the linkage name where there is one.
pub open spec fn is_alias_in_range(
    entry: SymbolModel,
    code: Seq<CodeView>,
    source: Seq<char>,
    linkage: Option<Seq<char>>,
    start: u64,
    end: u64,
    n: int,
) -> bool {
    exists|c: int|
        0 <= c < n && start <= code[c].rva < end && (linkage matches Some(name) ==> name
            == code[c].name) && #[trigger] is_alias(entry, source, code[c])
}

proof fn lemma_range(
    code: Seq<CodeView>,
    source: Seq<char>,
    linkage: Option<Seq<char>>,
    start: u64,
    end: u64,
    n: int,
    entry: SymbolModel,
)
    requires
        0 <= n <= code.len(),
    ensures
        range_aliases(code, source, linkage, start, end, n).contains(entry) <==> is_alias_in_range(
            entry,
            code,
            source,
            linkage,
            start,
            end,
            n,
        ),
    decreases n,
{
    if n > 0 {
        let before = range_aliases(code, source, linkage, start, end, n - 1);
        let all = range_aliases(code, source, linkage, start, end, n);
        let symbol = code[n - 1];
        lemma_range(code, source, linkage, start, end, n - 1, entry);
        lemma_made(source, symbol, entry);
        let fits = start <= symbol.rva < end && (linkage is Some ==> linkage == Some(symbol.name));
        if all.contains(entry) {
            let k = choose|k: int| 0 <= k < all.len() && all[k] == entry;
            if k < before.len() {
                assert(before[k] == entry);
            } else {
                assert(fits && made_alias(source, symbol) == Some(entry));
                assert(is_alias(entry, source, code[n - 1]));
            }
        }
        if before.contains(entry) {
            let k = choose|k: int| 0 <= k < before.len() && before[k] == entry;
            assert(all[k] == entry);
        }
        if fits && made_alias(source, symbol) == Some(entry) {
            assert(all[before.len() as int] == entry);
        }
    }
}

/// Whether a range of a subprogram has a symbol with the alias. A range that begins at zero is one that
/// the linker discarded.
pub open spec fn is_alias_in_subprogram(
    entry: SymbolModel,
    code: Seq<CodeView>,
    entries: Map<u64, EntryFact>,
    base: u64,
    source: Seq<char>,
    at: u64,
    ranges: Seq<(u64, u64)>,
    n: int,
) -> bool {
    exists|r: int|
        0 <= r < n && 0 < (#[trigger] ranges[r]).0 < ranges[r].1 && (linkage_name(
            entries,
            at,
            0,
        ) matches Ok(linkage) && is_alias_in_range(
            entry,
            code,
            source,
            linkage,
            relative(ranges[r].0, base),
            relative(ranges[r].1, base),
            code.len() as int,
        ))
}

proof fn lemma_ranges(
    first: Seq<SymbolModel>,
    code: Seq<CodeView>,
    entries: Map<u64, EntryFact>,
    base: u64,
    source: Seq<char>,
    at: u64,
    ranges: Seq<(u64, u64)>,
    n: int,
    entry: SymbolModel,
)
    requires
        0 <= n <= ranges.len(),
        with_ranges(first, code, entries, base, source, at, ranges, n) is Ok,
    ensures
        with_ranges(first, code, entries, base, source, at, ranges, n)->Ok_0.contains(entry)
            <==> first.contains(entry) || is_alias_in_subprogram(
            entry,
            code,
            entries,
            base,
            source,
            at,
            ranges,
            n,
        ),
    decreases n,
{
    if n > 0 {
        lemma_ranges(first, code, entries, base, source, at, ranges, n - 1, entry);
        let so_far = with_ranges(first, code, entries, base, source, at, ranges, n - 1)->Ok_0;
        let (begin, end) = ranges[n - 1];
        let (from, to) = (relative(begin, base), relative(end, base));
        if begin != 0 && begin < end && has_symbol(code, from, to) {
            let linkage = linkage_name(entries, at, 0)->Ok_0;
            let more = range_aliases(code, source, linkage, from, to, code.len() as int);
            lemma_range(code, source, linkage, from, to, code.len() as int, entry);
            lemma_contained(so_far, more, entry);
        } else if begin != 0 && begin < end {
            assert forall|linkage: Option<Seq<char>>| !#[trigger]
                is_alias_in_range(entry, code, source, linkage, from, to, code.len() as int) by {
                if is_alias_in_range(entry, code, source, linkage, from, to, code.len() as int) {
                    let c = choose|c: int|
                        0 <= c < code.len() && from <= code[c].rva < to && (linkage matches Some(
                            name,
                        ) ==> name == code[c].name) && #[trigger] is_alias(entry, source, code[c]);
                    assert(from <= code[c].rva < to);
                    assert(has_symbol(code, from, to));
                }
            }
        }
        assert(ranges[n - 1] == (begin, end));
    }
}

/// Whether a subprogram of a unit has a symbol with the alias.
pub open spec fn is_alias_in_unit(
    entry: SymbolModel,
    code: Seq<CodeView>,
    entries: Map<u64, EntryFact>,
    base: u64,
    source: Seq<char>,
    subprograms: Seq<Subprogram>,
    n: int,
) -> bool {
    exists|s: int|
        0 <= s < n && is_alias_in_subprogram(
            entry,
            code,
            entries,
            base,
            source,
            (#[trigger] subprograms[s]).at,
            subprograms[s].ranges@,
            subprograms[s].ranges@.len() as int,
        )
}

proof fn lemma_subprograms(
    first: Seq<SymbolModel>,
    code: Seq<CodeView>,
    entries: Map<u64, EntryFact>,
    base: u64,
    source: Seq<char>,
    subprograms: Seq<Subprogram>,
    n: int,
    entry: SymbolModel,
)
    requires
        0 <= n <= subprograms.len(),
        with_subprograms(first, code, entries, base, source, subprograms, n) is Ok,
    ensures
        with_subprograms(first, code, entries, base, source, subprograms, n)->Ok_0.contains(entry)
            <==> first.contains(entry) || is_alias_in_unit(
            entry,
            code,
            entries,
            base,
            source,
            subprograms,
            n,
        ),
    decreases n,
{
    if n > 0 {
        lemma_subprograms(first, code, entries, base, source, subprograms, n - 1, entry);
        let so_far = with_subprograms(
            first,
            code,
            entries,
            base,
            source,
            subprograms,
            n - 1,
        )->Ok_0;
        let last = subprograms[n - 1];
        lemma_ranges(
            so_far,
            code,
            entries,
            base,
            source,
            last.at,
            last.ranges@,
            last.ranges@.len() as int,
            entry,
        );
    }
}

/// Whether a unit whose source is below the root has a symbol with the alias.
pub open spec fn is_alias_of_units(
    entry: SymbolModel,
    code: Seq<CodeView>,
    entries: Map<u64, EntryFact>,
    base: u64,
    root: PathView,
    units: Seq<UnitCode>,
    n: int,
) -> bool {
    exists|u: int|
        0 <= u < n && (unit_source((#[trigger] units[u]).unit, root) matches Ok(Some(source))
            && is_alias_in_unit(
            entry,
            code,
            entries,
            base,
            source,
            units[u].subprograms@,
            units[u].subprograms@.len() as int,
        ))
}

/// The aliases of an ELF binary are those of the functions that its symbols name and that stand in the
/// ranges of the subprograms of units in scope.
pub proof fn law_elf_aliases(
    code: Seq<CodeView>,
    entries: Map<u64, EntryFact>,
    base: u64,
    root: PathView,
    units: Seq<UnitCode>,
    entry: SymbolModel,
)
    requires
        aliases_of(code, entries, base, root, units) is Ok,
    ensures
        aliases_of(code, entries, base, root, units)->Ok_0.contains(entry) <==> is_alias_of_units(
            entry,
            code,
            entries,
            base,
            root,
            units,
            units.len() as int,
        ),
{
    lemma_units(code, entries, base, root, units, units.len() as int, entry);
}

proof fn lemma_units(
    code: Seq<CodeView>,
    entries: Map<u64, EntryFact>,
    base: u64,
    root: PathView,
    units: Seq<UnitCode>,
    n: int,
    entry: SymbolModel,
)
    requires
        0 <= n <= units.len(),
        with_units(code, entries, base, root, units, n) is Ok,
    ensures
        with_units(code, entries, base, root, units, n)->Ok_0.contains(entry) <==> is_alias_of_units(
            entry,
            code,
            entries,
            base,
            root,
            units,
            n,
        ),
    decreases n,
{
    if n > 0 {
        lemma_units(code, entries, base, root, units, n - 1, entry);
        let so_far = with_units(code, entries, base, root, units, n - 1)->Ok_0;
        let last = units[n - 1];
        if let Ok(Some(source)) = unit_source(last.unit, root) {
            lemma_subprograms(
                so_far,
                code,
                entries,
                base,
                source,
                last.subprograms@,
                last.subprograms@.len() as int,
                entry,
            );
        }
    }
}

/// The functions that an object defines are its defined code symbols.
pub proof fn law_defined_functions(
    symbols: Seq<SymbolView>,
    names: Seq<Option<Seq<u8>>>,
    n: int,
    name: Seq<u8>,
)
    requires
        0 <= n <= symbols.len(),
    ensures
        defined_functions(symbols, names, n).contains(name) <==> exists|k: int|
            0 <= k < n && k < names.len() && (#[trigger] symbols[k]).definition && symbols[k].kind
                == SymbolClass::Text && names[k] == Some(name),
    decreases n,
{
    if n > 0 {
        let before = defined_functions(symbols, names, n - 1);
        let all = defined_functions(symbols, names, n);
        law_defined_functions(symbols, names, n - 1, name);
        if all.contains(name) {
            let k = choose|k: int| 0 <= k < all.len() && all[k] == name;
            if k < before.len() {
                assert(before[k] == name);
            } else {
                assert(symbols[n - 1].definition && names[n - 1] == Some(name));
            }
        }
        if before.contains(name) {
            let k = choose|k: int| 0 <= k < before.len() && before[k] == name;
            assert(all[k] == name);
        }
        if n <= names.len() && symbols[n - 1].definition && symbols[n - 1].kind
            == SymbolClass::Text && names[n - 1] == Some(name) {
            assert(all[before.len() as int] == name);
        }
    }
}

/// The symbol that a mapped function is linked as: the last with its name at its address.
pub proof fn law_linked_symbol_is_the_last(
    code: Seq<CodeView>,
    name: Seq<char>,
    rva: u64,
    n: int,
)
    requires
        0 <= n <= code.len(),
    ensures
        linked_symbol(code, name, rva, n) matches Some(symbol) ==> symbol.name == name && symbol.rva
            == rva && exists|i: int|
            0 <= i < n && #[trigger] code[i] == symbol && forall|k: int|
                i < k < n ==> !((#[trigger] code[k]).name == name && code[k].rva == rva),
        linked_symbol(code, name, rva, n) is None ==> forall|i: int|
            0 <= i < n ==> !((#[trigger] code[i]).name == name && code[i].rva == rva),
    decreases n,
{
    if n > 0 {
        if code[n - 1].rva == rva && code[n - 1].name == name {
            assert(code[n - 1] == linked_symbol(code, name, rva, n)->Some_0);
        } else {
            law_linked_symbol_is_the_last(code, name, rva, n - 1);
            if linked_symbol(code, name, rva, n) is Some {
                let symbol = linked_symbol(code, name, rva, n)->Some_0;
                let i = choose|i: int|
                    0 <= i < n - 1 && #[trigger] code[i] == symbol && forall|k: int|
                        i < k < n - 1 ==> !((#[trigger] code[k]).name == name && code[k].rva == rva);
                assert(code[i] == symbol);
            }
        }
    }
}

/// Whether an entry is the alias of a mapped function: the object defines it, and the binary has linked
/// it under its name without the leading underscore, at its address from the base of the image on.
pub open spec fn is_mapped_alias(
    entry: SymbolModel,
    mapped: MapEntry,
    functions: Seq<Seq<u8>>,
    source: Seq<char>,
    code: Seq<CodeView>,
    base: u64,
) -> bool {
    &&& functions.contains(mapped.name@)
    &&& linked_symbol(
        code,
        lookup_text(decode_utf8(mapped.name@), true),
        relative(mapped.address, base),
        code.len() as int,
    ) matches Some(symbol) && is_alias(entry, source, symbol)
}

proof fn lemma_mapped(
    first: Seq<SymbolModel>,
    mapped: Seq<MapEntry>,
    functions: Seq<Seq<u8>>,
    source: Seq<char>,
    code: Seq<CodeView>,
    base: u64,
    at: int,
    n: int,
    entry: SymbolModel,
)
    requires
        0 <= n <= mapped.len(),
        with_mapped(first, mapped, functions, source, code, base, at, n) is Ok,
    ensures
        with_mapped(first, mapped, functions, source, code, base, at, n)->Ok_0.contains(entry)
            <==> first.contains(entry) || exists|m: int|
            0 <= m < n && is_mapped_alias(
                entry,
                #[trigger] mapped[m],
                functions,
                source,
                code,
                base,
            ),
    decreases n,
{
    if n > 0 {
        let before = with_mapped(first, mapped, functions, source, code, base, at, n - 1)->Ok_0;
        let all = with_mapped(first, mapped, functions, source, code, base, at, n)->Ok_0;
        lemma_mapped(first, mapped, functions, source, code, base, at, n - 1, entry);
        let last = mapped[n - 1];
        let name = lookup_text(decode_utf8(last.name@), true);
        let rva = relative(last.address, base);
        let linked = linked_symbol(code, name, rva, code.len() as int);
        let made = mapped_alias(last, functions, source, code, base, at)->Ok_0;
        law_linked_symbol_is_the_last(code, name, rva, code.len() as int);
        if functions.contains(last.name@) && linked is Some {
            lemma_made(source, linked->Some_0, entry);
        }
        assert(made == Some(entry) <==> is_mapped_alias(
            entry,
            last,
            functions,
            source,
            code,
            base,
        ));
        if all.contains(entry) {
            let k = choose|k: int| 0 <= k < all.len() && all[k] == entry;
            if k < before.len() {
                assert(before[k] == entry);
            } else {
                assert(is_mapped_alias(entry, mapped[n - 1], functions, source, code, base));
            }
        }
        if before.contains(entry) {
            let k = choose|k: int| 0 <= k < before.len() && before[k] == entry;
            assert(all[k] == entry);
        }
        if made == Some(entry) {
            assert(all[before.len() as int] == entry);
        }
    }
}

/// Whether an entry is the alias of a function that is mapped to an object.
pub open spec fn is_object_alias(
    entry: SymbolModel,
    object: MappedObject,
    root: PathView,
    code: Seq<CodeView>,
    base: u64,
) -> bool {
    owner_of(object.units@, root) matches Ok(Some(source)) && exists|m: int|
        0 <= m < object.mapped@.len() && is_mapped_alias(
            entry,
            #[trigger] object.mapped@[m],
            defined_functions(
                file_symbols(object.data@)->Some_0,
                file_symbol_names(object.data@)->Some_0,
                file_symbols(object.data@)->Some_0.len() as int,
            ),
            source,
            code,
            base,
        )
}

proof fn lemma_objects(
    objects: Seq<MappedObject>,
    arch: Seq<char>,
    root: PathView,
    code: Seq<CodeView>,
    base: u64,
    n: int,
    entry: SymbolModel,
)
    requires
        0 <= n <= objects.len(),
        with_objects(objects, arch, root, code, base, n) is Ok,
    ensures
        with_objects(objects, arch, root, code, base, n)->Ok_0.contains(entry) <==> exists|o: int|
            0 <= o < n && is_object_alias(entry, #[trigger] objects[o], root, code, base),
    decreases n,
{
    if n > 0 {
        lemma_objects(objects, arch, root, code, base, n - 1, entry);
        let so_far = with_objects(objects, arch, root, code, base, n - 1)->Ok_0;
        let last = objects[n - 1];
        if let Ok(Some(source)) = owner_of(last.units@, root) {
            let symbols = file_symbols(last.data@)->Some_0;
            let names = file_symbol_names(last.data@)->Some_0;
            lemma_mapped(
                so_far,
                last.mapped@,
                defined_functions(symbols, names, symbols.len() as int),
                source,
                code,
                base,
                n - 1,
                last.mapped@.len() as int,
                entry,
            );
        }
    }
}

/// The aliases of a Mach-O binary are those of the functions that its debug map assigns to objects with
/// a source file of their own.
pub proof fn law_macho_aliases(
    image: Seq<u8>,
    objects: Seq<MappedObject>,
    root: PathView,
    code: Seq<CodeView>,
    entry: SymbolModel,
)
    requires
        mapped_aliases(image, objects, root, code) is Ok,
    ensures
        mapped_aliases(image, objects, root, code)->Ok_0.contains(entry) <==> exists|o: int|
            0 <= o < objects.len() && is_object_alias(
                entry,
                #[trigger] objects[o],
                root,
                code,
                file_base(image)->Some_0,
            ),
{
    lemma_objects(
        objects,
        file_arch_name(image)->Some_0,
        root,
        code,
        file_base(image)->Some_0,
        objects.len() as int,
        entry,
    );
}

/// An object is owned by a source file only where that is the one of its only unit.
pub proof fn law_owner_is_the_only_unit(units: Seq<UnitFact>, root: PathView)
    requires
        owner_of(units, root) matches Ok(Some(_)),
    ensures
        units.len() == 1,
        unit_source(units[0], root) == owner_of(units, root),
{
    reveal_with_fuel(last_source, 2);
}

proof fn lemma_nothing_removed(s: Seq<char>, part: Seq<char>)
    requires
        !holds_text(s, part),
    ensures
        removed(s, part) == s,
    decreases s.len(),
{
    if part.len() > 0 && s.len() >= part.len() {
        if begins_with(s, part) {
            assert(s.subrange(0, 0 + part.len() as int) =~= part);
            assert(holds_text(s, part));
        }
        let rest = s.subrange(1, s.len() as int);
        if holds_text(rest, part) {
            let i = choose|i: int|
                0 <= i && i + part.len() <= rest.len() && #[trigger] rest.subrange(
                    i,
                    i + part.len(),
                ) == part;
            assert(s.subrange(i + 1, i + 1 + part.len()) =~= rest.subrange(i, i + part.len()));
            assert(holds_text(s, part));
        }
        lemma_nothing_removed(rest, part);
        assert(seq![s[0]] + rest =~= s);
    }
}

/// A name that stands in no anonymous namespace stays as it is. It has no alias where it is empty, is
/// local to a function, or is that of a lambda.
pub proof fn law_plain_names_stay(name: Seq<char>)
    requires
        !holds_text(name, "(anonymous namespace)::"@),
        !holds_text(name, "`anonymous namespace'::"@),
        !holds_text(name, "{anonymous}::"@),
    ensures
        canonical(name) == if name.len() == 0 || name.contains('`') || holds_text(
            name,
            "{lambda"@,
        ) || holds_text(name, "<lambda"@) {
            None
        } else {
            Some(name)
        },
{
    lemma_nothing_removed(name, "(anonymous namespace)::"@);
    lemma_nothing_removed(name, "`anonymous namespace'::"@);
    lemma_nothing_removed(name, "{anonymous}::"@);
}

proof fn lemma_removed_in_front(s: Seq<char>, part: Seq<char>)
    requires
        part.len() > 0,
    ensures
        removed(part + s, part) == removed(s, part),
{
    let all = part + s;
    assert(all.subrange(0, part.len() as int) =~= part);
    assert(all.subrange(part.len() as int, all.len() as int) =~= s);
    assert(begins_with(all, part));
}

/// An anonymous namespace in front of a plain name is dropped, however it is spelled.
pub proof fn law_anonymous_namespaces_are_dropped(name: Seq<char>, spelling: Seq<char>)
    requires
        !holds_text(name, "(anonymous namespace)::"@),
        !holds_text(name, "`anonymous namespace'::"@),
        !holds_text(name, "{anonymous}::"@),
        spelling == "(anonymous namespace)::"@ || (spelling == "`anonymous namespace'::"@
            && !holds_text(spelling + name, "(anonymous namespace)::"@)) || (spelling
            == "{anonymous}::"@ && !holds_text(spelling + name, "(anonymous namespace)::"@)
            && !holds_text(spelling + name, "`anonymous namespace'::"@)),
    ensures
        canonical(spelling + name) == canonical(name),
{
    let one = "(anonymous namespace)::"@;
    let two = "`anonymous namespace'::"@;
    let three = "{anonymous}::"@;
    reveal_strlit("(anonymous namespace)::");
    reveal_strlit("`anonymous namespace'::");
    reveal_strlit("{anonymous}::");
    lemma_nothing_removed(name, one);
    lemma_nothing_removed(name, two);
    lemma_nothing_removed(name, three);
    lemma_removed_in_front(name, spelling);
    if spelling == one {
        assert(removed(spelling + name, one) == name);
    } else if spelling == two {
        lemma_nothing_removed(spelling + name, one);
        assert(removed(spelling + name, two) == name);
    } else {
        lemma_nothing_removed(spelling + name, one);
        lemma_nothing_removed(spelling + name, two);
        assert(removed(spelling + name, three) == name);
    }
}

} // verus!
