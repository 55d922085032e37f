//! What the manifest of a binary lists.

use vstd::prelude::*;
use vstd::utf8::*;
use crate::bytes::begins;
use crate::util::manifest::format::{SymbolModel, FLAG_DISPLAY};
use crate::util::objfile::{
    file_addresses, file_base, file_build_id, file_format, file_symbols, file_uuid, Format,
    SymbolClass, SymbolView,
};
use super::binary::{all_listed, binary_input, entries_of, flags_of, listed, lookup_text, relative};
use super::names::{chosen_display, demangled_of, is_skipped, is_special};

verus! {

/// How the names of symbols begin that compilers and linkers make for themselves.
pub open spec fn compiler_prefixes() -> Seq<Seq<char>> {
    seq![
        "ltmp"@, "l_"@, "L_"@, "__cxx_global_var_init"@, "_GLOBAL__sub_I"@, "GCC_except_table"@,
        "__GCC_except_table"@, "__unnamed_"@, "OUTLINED_FUNCTION_"@, "$"@, "__imp_"@, "??_C@"@,
        "__real@"@, "__xmm@"@, "__ymm@"@,
    ]
}

/// How mangled names begin that are no plain qualified names: vtables, type information, thunks,
/// guard variables, statics of functions, and Rust's own mangling.
pub open spec fn special_prefixes() -> Seq<Seq<char>> {
    seq![
        "_ZTV"@, "_ZTI"@, "_ZTS"@, "_ZTh"@, "_ZTv"@, "_ZTc"@, "_ZGV"@, "_ZGR"@, "_ZGTt"@, "_ZZ"@,
        "_R"@,
    ]
}

/// Whether a name begins with one of the prefixes.
pub open spec fn begins_with_one(name: Seq<u8>, prefixes: Seq<Seq<char>>) -> bool {
    exists|i: int| 0 <= i < prefixes.len() && begins(name, encode_utf8(#[trigger] prefixes[i]))
}

/// The names that are skipped are those that compilers and linkers make for themselves.
pub proof fn law_compiler_names_are_skipped(name: Seq<u8>)
    ensures
        is_skipped(name) <==> begins_with_one(name, compiler_prefixes()),
{
    let p = compiler_prefixes();
    assert(p[0] == "ltmp"@ && p[1] == "l_"@ && p[2] == "L_"@ && p[3] == "__cxx_global_var_init"@);
    assert(p[4] == "_GLOBAL__sub_I"@ && p[5] == "GCC_except_table"@ && p[6]
        == "__GCC_except_table"@);
    assert(p[7] == "__unnamed_"@ && p[8] == "OUTLINED_FUNCTION_"@ && p[9] == "$"@ && p[10]
        == "__imp_"@);
    assert(p[11] == "??_C@"@ && p[12] == "__real@"@ && p[13] == "__xmm@"@ && p[14] == "__ymm@"@);
    if begins_with_one(name, p) {
        let i = choose|i: int| 0 <= i < p.len() && begins(name, encode_utf8(#[trigger] p[i]));
        assert(is_skipped(name));
    }
}

/// The names without a display name are those that begin as special names do.
pub proof fn law_special_names_have_their_prefixes(name: Seq<u8>)
    ensures
        is_special(name) <==> begins_with_one(name, special_prefixes()),
{
    let p = special_prefixes();
    assert(p[0] == "_ZTV"@ && p[1] == "_ZTI"@ && p[2] == "_ZTS"@ && p[3] == "_ZTh"@ && p[4]
        == "_ZTv"@ && p[5] == "_ZTc"@);
    assert(p[6] == "_ZGV"@ && p[7] == "_ZGR"@ && p[8] == "_ZGTt"@ && p[9] == "_ZZ"@ && p[10]
        == "_R"@);
    if begins_with_one(name, p) {
        let i = choose|i: int| 0 <= i < p.len() && begins(name, encode_utf8(#[trigger] p[i]));
        assert(is_special(name));
    }
}

/// Whether a symbol is one that can be hooked: it is defined as code or data, and has a name that is
/// not one that compilers and linkers make for themselves.
pub open spec fn is_hookable(symbol: SymbolView) -> bool {
    &&& symbol.definition
    &&& symbol.kind != SymbolClass::Other
    &&& symbol.name matches Some(name) && {
        &&& name.len() > 0
        &&& valid_utf8(name)
        &&& !begins_with_one(name, compiler_prefixes())
    }
}

/// What a symbol is called in lookups: in Mach-O files without one leading underscore.
pub open spec fn is_lookup_name(symbol: SymbolView, format: Format, name: Seq<char>) -> bool {
    let stored = decode_utf8(symbol.name->Some_0);
    if format == Format::MachO && stored.len() > 0 && stored[0] == '_' {
        stored == seq!['_'] + name
    } else {
        stored == name
    }
}

/// Whether an entry has the address of a symbol, counted from the base of its image.
pub open spec fn is_at(entry: SymbolModel, address: u64, base: u64) -> bool {
    (entry.rva + base - address) % 0x1_0000_0000_0000_0000 == 0
}

/// The flags of a symbol: bit 0 for code and bit 1 for data, and bit 2 where it is local.
pub open spec fn kind_flags(symbol: SymbolView) -> int {
    (if symbol.kind == SymbolClass::Text {
        1int
    } else {
        2
    }) + if symbol.local {
        4int
    } else {
        0
    }
}

/// The display name of a name: what it demangles to. Only mangled names of a plain qualified name
/// have one, and not the paths of Rust that end in a hash.
pub open spec fn is_display_of(display: Seq<char>, name: Seq<char>) -> bool {
    let bytes = encode_utf8(display);
    let n = bytes.len() as int;
    &&& demangled_of(name) == Some(display)
    &&& begins(encode_utf8(name), encode_utf8("_Z"@))
    &&& !begins_with_one(encode_utf8(name), special_prefixes())
    &&& display.len() > 0
    &&& bytes != encode_utf8(name)
    &&& !(n >= 19 && bytes.subrange(n - 19, n - 16) == encode_utf8("::h"@) && forall|i: int|
        n - 16 <= i < n ==> {
            let c = #[trigger] bytes[i];
            0x30 <= c <= 0x39 || 0x41 <= c <= 0x46 || 0x61 <= c <= 0x66
        })
}

/// Whether an entry is that of a symbol: under its lookup name, or as an alias under its display name,
/// which bit 6 marks.
pub open spec fn is_entry_of(
    entry: SymbolModel,
    symbol: SymbolView,
    address: u64,
    format: Format,
    base: u64,
) -> bool {
    &&& is_hookable(symbol)
    &&& is_at(entry, address, base)
    &&& exists|name: Seq<char>| #[trigger]
        is_lookup_name(symbol, format, name) && (entry.name == encode_utf8(name) && entry.flags
            == kind_flags(symbol) || exists|display: Seq<char>| #[trigger]
            is_display_of(display, name) && entry.name == encode_utf8(display) && entry.flags
                == kind_flags(symbol) + 64)
}

proof fn lemma_flags(kind: u32, local: bool)
    requires
        kind == 1 || kind == 2,
    ensures
        (kind | if local {
            4u32
        } else {
            0
        }) == kind + if local {
            4int
        } else {
            0
        },
        ((kind | if local {
            4u32
        } else {
            0
        }) | 64) == kind + (if local {
            4int
        } else {
            0
        }) + 64,
{
    assert(1u32 | 0 == 1 && 1u32 | 4 == 5 && 2u32 | 0 == 2 && 2u32 | 4 == 6 && 1u32 | 64 == 65
        && 5u32 | 64 == 69 && 2u32 | 64 == 66 && 6u32 | 64 == 70) by (bit_vector);
}

/// The display name that is chosen is the one that a name has.
pub(crate) proof fn lemma_display(name: Seq<char>)
    ensures
        chosen_display(name, demangled_of(name)) matches Some(display) ==> is_display_of(
            display,
            name,
        ),
        forall|display: Seq<char>| #[trigger]
            is_display_of(display, name) ==> chosen_display(name, demangled_of(name)) == Some(
                display,
            ),
{
    law_special_names_have_their_prefixes(encode_utf8(name));
}

proof fn lemma_relative(address: u64, base: u64)
    ensures
        (relative(address, base) + base - address) % 0x1_0000_0000_0000_0000 == 0,
{
    let rva = relative(address, base);
    if address >= base {
        assert(rva + base - address == 0);
    } else {
        assert(rva + base - address == 0x1_0000_0000_0000_0000);
    }
}

/// A symbol that cannot be hooked adds nothing; another adds its entries under its lookup name.
proof fn lemma_listed(symbol: SymbolView, address: u64, format: Format, base: u64)
    ensures
        !is_hookable(symbol) ==> listed(symbol, address, format == Format::MachO, base).len() == 0,
        is_hookable(symbol) ==> {
            let name = lookup_text(decode_utf8(symbol.name->Some_0), format == Format::MachO);
            &&& is_lookup_name(symbol, format, name)
            &&& flags_of(symbol) is Some
            &&& flags_of(symbol)->Some_0 == kind_flags(symbol)
            &&& listed(symbol, address, format == Format::MachO, base) == entries_of(
                name,
                chosen_display(name, demangled_of(name)),
                relative(address, base),
                flags_of(symbol)->Some_0,
            )
        },
{
    if symbol.name is Some {
        law_compiler_names_are_skipped(symbol.name->Some_0);
    }
    if is_hookable(symbol) {
        let stored = decode_utf8(symbol.name->Some_0);
        let name = lookup_text(stored, format == Format::MachO);
        if format == Format::MachO && stored.len() > 0 && stored[0] == '_' {
            assert(stored =~= seq!['_'] + name);
        }
        lemma_flags(
            if symbol.kind == SymbolClass::Text {
                1
            } else {
                2
            },
            symbol.local,
        );
    }
}

/// What the entries of a symbol are.
proof fn lemma_entries(
    symbol: SymbolView,
    address: u64,
    format: Format,
    base: u64,
    name: Seq<char>,
    entry: SymbolModel,
)
    requires
        is_hookable(symbol),
        is_lookup_name(symbol, format, name),
        flags_of(symbol) matches Some(flags) && flags == kind_flags(symbol) && entries_of(
            name,
            chosen_display(name, demangled_of(name)),
            relative(address, base),
            flags,
        ).contains(entry),
    ensures
        is_entry_of(entry, symbol, address, format, base),
{
    let flags = flags_of(symbol)->Some_0;
    let rva = relative(address, base);
    lemma_relative(address, base);
    let plain = SymbolModel { name: encode_utf8(name), rva, flags };
    if entry != plain {
        lemma_display(name);
        lemma_flags(
            if symbol.kind == SymbolClass::Text {
                1
            } else {
                2
            },
            symbol.local,
        );
        let display = chosen_display(name, demangled_of(name))->Some_0;
        assert(entry.name == encode_utf8(display));
        assert(is_display_of(display, name));
    }
}

proof fn lemma_all_listed(
    symbols: Seq<SymbolView>,
    addresses: Seq<u64>,
    macho: bool,
    base: u64,
    n: int,
    entry: SymbolModel,
)
    requires
        0 <= n <= symbols.len(),
    ensures
        all_listed(symbols, addresses, macho, base, n).contains(entry) <==> exists|i: int|
            0 <= i < n && i < addresses.len() && listed(
                #[trigger] symbols[i],
                addresses[i],
                macho,
                base,
            ).contains(entry),
    decreases n,
{
    if n > 0 {
        lemma_all_listed(symbols, addresses, macho, base, n - 1, entry);
        let before = all_listed(symbols, addresses, macho, base, n - 1);
        let more = if n <= addresses.len() {
            listed(symbols[n - 1], addresses[n - 1], macho, base)
        } else {
            Seq::empty()
        };
        let all = all_listed(symbols, addresses, macho, base, n);
        assert(all == before + more);
        if before.contains(entry) {
            let k = choose|k: int| 0 <= k < before.len() && before[k] == entry;
            assert(all[k] == entry);
        }
        if more.contains(entry) {
            let k = choose|k: int| 0 <= k < more.len() && more[k] == entry;
            assert(all[before.len() + k] == entry);
        }
        if all.contains(entry) {
            let k = choose|k: int| 0 <= k < all.len() && all[k] == entry;
            if k < before.len() {
                assert(before[k] == entry);
            } else {
                assert(more[k - before.len()] == entry);
                assert(listed(symbols[n - 1], addresses[n - 1], macho, base).contains(entry));
            }
        }
    }
}

/// Every symbol of a binary that can be hooked is listed, whether it is local or not: under its lookup
/// name, at its address from the base of the image on, marked as code or data and as local or not.
/// Where its name has a display name, that is listed as an alias too.
pub proof fn law_every_hookable_symbol_is_listed(
    data: Seq<u8>,
    i: int,
    name: Seq<char>,
)
    requires
        binary_input(data) is Ok,
        ({
            let symbols = file_symbols(data)->Some_0;
            &&& 0 <= i < symbols.len()
            &&& i < file_addresses(data)->Some_0.len()
            &&& is_hookable(symbols[i])
            &&& is_lookup_name(symbols[i], file_format(data)->Some_0, name)
        }),
    ensures
        ({
            let symbol = file_symbols(data)->Some_0[i];
            let address = file_addresses(data)->Some_0[i];
            let base = file_base(data)->Some_0;
            let entries = binary_input(data)->Ok_0.1;
            &&& exists|e: SymbolModel| #[trigger]
                entries.contains(e) && e.name == encode_utf8(name) && is_at(e, address, base)
                    && e.flags == kind_flags(symbol)
            &&& forall|display: Seq<char>| #[trigger]
                is_display_of(display, name) ==> exists|e: SymbolModel| #[trigger]
                    entries.contains(e) && e.name == encode_utf8(display) && is_at(e, address, base)
                        && e.flags == kind_flags(symbol) + 64
        }),
{
    let symbols = file_symbols(data)->Some_0;
    let addresses = file_addresses(data)->Some_0;
    let format = file_format(data)->Some_0;
    let base = file_base(data)->Some_0;
    let macho = format == Format::MachO;
    let symbol = symbols[i];
    let entries = binary_input(data)->Ok_0.1;
    lemma_listed(symbol, addresses[i], format, base);
    lemma_relative(addresses[i], base);
    let known = lookup_text(decode_utf8(symbol.name->Some_0), macho);
    assert(known =~= name);
    let flags = flags_of(symbol)->Some_0;
    let rva = relative(addresses[i], base);
    let own = listed(symbol, addresses[i], macho, base);
    let plain = SymbolModel { name: encode_utf8(name), rva, flags };
    assert(own.last() == plain);
    assert(own.contains(plain));
    lemma_all_listed(symbols, addresses, macho, base, symbols.len() as int, plain);
    assert(entries.contains(plain));
    assert forall|display: Seq<char>| #[trigger] is_display_of(display, name) implies exists|
        e: SymbolModel,
    | #[trigger]
        entries.contains(e) && e.name == encode_utf8(display) && is_at(e, addresses[i], base)
            && e.flags == kind_flags(symbol) + 64 by {
        lemma_display(name);
        lemma_flags(
            if symbol.kind == SymbolClass::Text {
                1
            } else {
                2
            },
            symbol.local,
        );
        let alias = SymbolModel { name: encode_utf8(display), rva, flags: flags | FLAG_DISPLAY };
        assert(own[0] == alias);
        assert(own.contains(alias));
        lemma_all_listed(symbols, addresses, macho, base, symbols.len() as int, alias);
        assert(entries.contains(alias));
    }
}

/// Nothing else is listed: every entry is that of a symbol of the binary that can be hooked. The
/// manifest is keyed by the Mach-O UUID of the binary, or else by its GNU build id.
pub proof fn law_only_hookable_symbols_are_listed(data: Seq<u8>, entry: SymbolModel)
    requires
        binary_input(data) is Ok,
    ensures
        ({
            let symbols = file_symbols(data)->Some_0;
            let addresses = file_addresses(data)->Some_0;
            let (id, entries) = binary_input(data)->Ok_0;
            &&& entries.contains(entry) ==> exists|i: int|
                0 <= i < symbols.len() && i < addresses.len() && is_entry_of(
                    entry,
                    #[trigger] symbols[i],
                    addresses[i],
                    file_format(data)->Some_0,
                    file_base(data)->Some_0,
                )
            &&& file_uuid(data) matches Some(uuid) ==> id == uuid
            &&& file_uuid(data) is None ==> file_build_id(data) == Some(id)
        }),
{
    let symbols = file_symbols(data)->Some_0;
    let addresses = file_addresses(data)->Some_0;
    let format = file_format(data)->Some_0;
    let base = file_base(data)->Some_0;
    let macho = format == Format::MachO;
    let (id, entries) = binary_input(data)->Ok_0;
    if entries.contains(entry) {
        lemma_all_listed(symbols, addresses, macho, base, symbols.len() as int, entry);
        let i = choose|i: int|
            0 <= i < symbols.len() && i < addresses.len() && listed(
                #[trigger] symbols[i],
                addresses[i],
                macho,
                base,
            ).contains(entry);
        lemma_listed(symbols[i], addresses[i], format, base);
        let name = lookup_text(decode_utf8(symbols[i].name->Some_0), macho);
        lemma_entries(symbols[i], addresses[i], format, base, name, entry);
    }
}

} // verus!
