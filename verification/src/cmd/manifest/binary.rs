//! Symbols of linked Mach-O and ELF binaries.

use vstd::prelude::*;
use vstd::utf8::*;
use crate::bytes::copy_bytes;
use crate::text::{string_from_chars, to_chars, utf8_string};
use crate::util::manifest::format::{
    symbol_models, ManifestInput, ManifestSymbol, SymbolModel, FLAG_CODE, FLAG_DATA, FLAG_DISPLAY,
    FLAG_LOCAL,
};
use crate::util::objfile::{
    file_addresses, file_base, file_build_id, file_format, file_symbols, file_uuid, read_addresses,
    read_base, read_build_id, read_format, read_symbols, read_uuid, symbol_views, Format,
    SymbolClass, SymbolFact, SymbolView,
};
use super::names::{chosen_display, demangled_of, display_name, is_skip_symbol, is_skipped};
use super::ManifestFault;

verus! {

/// What a symbol is called in lookups: the spelling of `dlsym`, without Mach-O's extra leading
/// underscore.
pub open spec fn lookup_text(name: Seq<char>, macho: bool) -> Seq<char> {
    if macho && name.len() > 0 && name[0] == '_' {
        name.drop_first()
    } else {
        name
    }
}

/// The flags of a symbol: code or data, and whether it is local. Other kinds are not listed.
pub open spec fn flags_of(symbol: SymbolView) -> Option<u32> {
    let local = if symbol.local {
        FLAG_LOCAL
    } else {
        0
    };
    match symbol.kind {
        SymbolClass::Text => Some(FLAG_CODE | local),
        SymbolClass::Data => Some(FLAG_DATA | local),
        SymbolClass::Unknown => Some(FLAG_DATA | local),
        SymbolClass::Other => None,
    }
}

/// The address of a symbol relative to the image base.
pub open spec fn relative(address: u64, base: u64) -> u64 {
    if address >= base {
        (address - base) as u64
    } else {
        (address + 0x1_0000_0000_0000_0000 - base) as u64
    }
}

/// The entries of a symbol whose display name is given: its display alias, and itself.
pub open spec fn entries_of(
    name: Seq<char>,
    display: Option<Seq<char>>,
    rva: u64,
    flags: u32,
) -> Seq<SymbolModel> {
    let plain = SymbolModel { name: encode_utf8(name), rva, flags };
    match display {
        Some(display) => seq![
            SymbolModel { name: encode_utf8(display), rva, flags: flags | FLAG_DISPLAY },
            plain,
        ],
        None => seq![plain],
    }
}

/// The entries of a symbol: those that are defined, named and no compiler-generated locals are
/// listed.
pub open spec fn listed(symbol: SymbolView, address: u64, macho: bool, base: u64) -> Seq<
    SymbolModel,
> {
    match (symbol.name, flags_of(symbol)) {
        (Some(bytes), Some(flags)) => if !symbol.definition || !valid_utf8(bytes) || bytes.len()
            == 0 || is_skipped(bytes) {
            Seq::empty()
        } else {
            let name = lookup_text(decode_utf8(bytes), macho);
            entries_of(
                name,
                chosen_display(name, demangled_of(name)),
                relative(address, base),
                flags,
            )
        },
        _ => Seq::empty(),
    }
}

/// The entries of the first `n` symbols, each with its address.
pub open spec fn all_listed(
    symbols: Seq<SymbolView>,
    addresses: Seq<u64>,
    macho: bool,
    base: u64,
    n: int,
) -> Seq<SymbolModel>
    decreases n,
{
    if n <= 0 {
        Seq::empty()
    } else {
        all_listed(symbols, addresses, macho, base, n - 1) + if n <= addresses.len() {
            listed(symbols[n - 1], addresses[n - 1], macho, base)
        } else {
            Seq::empty()
        }
    }
}

/// The build id that keys the manifest to a binary: its Mach-O UUID, or else its GNU build id.
pub open spec fn build_id_of(uuid: Option<Seq<u8>>, build_id: Option<Seq<u8>>) -> Option<Seq<u8>> {
    match uuid {
        Some(uuid) => Some(uuid),
        None => build_id,
    }
}

/// What the manifest of a binary is made of: its build id, and its symbols.
pub open spec fn binary_input(data: Seq<u8>) -> Result<
    (Seq<u8>, Seq<SymbolModel>),
    ManifestFault,
> {
    match (file_format(data), file_base(data)) {
        (Some(format), Some(base)) => match build_id_of(file_uuid(data), file_build_id(data)) {
            None => Err(ManifestFault::NoBuildId),
            Some(id) => match (file_symbols(data), file_addresses(data)) {
                (Some(symbols), Some(addresses)) => Ok(
                    (
                        id,
                        all_listed(
                            symbols,
                            addresses,
                            format == Format::MachO,
                            base,
                            symbols.len() as int,
                        ),
                    ),
                ),
                _ => Err(ManifestFault::BadBinary),
            },
        },
        _ => Err(ManifestFault::BadBinary),
    }
}

/// Find what a symbol is called in lookups.
pub(crate) fn lookup_string(name: &str, macho: bool) -> (r: String)
    ensures
        r@ == lookup_text(name@, macho),
{
    let chars: Vec<char> = to_chars(name);
    if macho && chars.len() > 0 && chars[0] == '_' {
        assert(chars@.subrange(1, chars@.len() as int) =~= chars@.drop_first());
        string_from_chars(&chars[1..chars.len()])
    } else {
        string_from_chars(&chars)
    }
}

/// List a symbol.
pub fn list_symbol(
    symbol: &SymbolFact,
    address: u64,
    macho: bool,
    base: u64,
    out: &mut Vec<ManifestSymbol>,
)
    ensures
        symbol_models(final(out)@) == symbol_models(old(out)@) + listed(
            symbol@,
            address,
            macho,
            base,
        ),
{
    broadcast use encode_utf8_decode_utf8;

    let ghost before = symbol_models(out@);
    assert(before + Seq::<SymbolModel>::empty() =~= before);
    let local: u32 = if symbol.local {
        FLAG_LOCAL
    } else {
        0
    };
    let flags: u32 = match symbol.kind {
        SymbolClass::Text => FLAG_CODE | local,
        SymbolClass::Data => FLAG_DATA | local,
        SymbolClass::Unknown => FLAG_DATA | local,
        SymbolClass::Other => return,
    };
    let bytes: &Vec<u8> = match &symbol.name {
        Some(bytes) => bytes,
        None => return,
    };
    if !symbol.definition || bytes.len() == 0 {
        return;
    }
    let text: String = match utf8_string(bytes.clone()) {
        Some(text) => text,
        None => return,
    };
    if is_skip_symbol(text.as_str()) {
        return;
    }
    let name: String = lookup_string(text.as_str(), macho);
    let rva: u64 = address.wrapping_sub(base);
    assert(rva == relative(address, base));
    let ghost plain = SymbolModel { name: encode_utf8(name@), rva, flags };
    match display_name(name.as_str()) {
        Some(display) => {
            let ghost alias = SymbolModel {
                name: encode_utf8(display@),
                rva,
                flags: flags | FLAG_DISPLAY,
            };
            out.push(ManifestSymbol { name: display, rva, flags: flags | FLAG_DISPLAY });
            assert(symbol_models(out@) =~= before.push(alias));
            out.push(ManifestSymbol { name, rva, flags });
            assert(symbol_models(out@) =~= before + seq![alias, plain]);
        },
        None => {
            out.push(ManifestSymbol { name, rva, flags });
            assert(symbol_models(out@) =~= before + seq![plain]);
        },
    }
}

/// List symbols, each with its address.
pub fn list_symbols(symbols: &[SymbolFact], addresses: &[u64], macho: bool, base: u64) -> (r: Vec<
    ManifestSymbol,
>)
    ensures
        symbol_models(r@) == all_listed(
            symbol_views(symbols@),
            addresses@,
            macho,
            base,
            symbols@.len() as int,
        ),
{
    let ghost views = symbol_views(symbols@);
    let mut out: Vec<ManifestSymbol> = Vec::new();
    let mut i: usize = 0;
    assert(symbol_models(out@) =~= Seq::empty());
    while i < symbols.len()
        invariant
            i <= symbols@.len(),
            views == symbol_views(symbols@),
            symbol_models(out@) == all_listed(views, addresses@, macho, base, i as int),
        decreases symbols@.len() - i,
    {
        assert(views[i as int] == symbols@[i as int]@);
        let ghost before = symbol_models(out@);
        assert(before + Seq::<SymbolModel>::empty() =~= before);
        if i < addresses.len() {
            list_symbol(&symbols[i], addresses[i], macho, base, &mut out);
        }
        i = i + 1;
    }
    out
}

/// Symbols and build id of a linked Mach-O or ELF binary.
pub fn read_binary(data: &[u8]) -> (r: Result<ManifestInput, ManifestFault>)
    ensures
        match r {
            Ok(input) => binary_input(data@) == Ok::<(Seq<u8>, Seq<SymbolModel>), ManifestFault>(
                (input.build_id@, symbol_models(input.symbols@)),
            ),
            Err(e) => binary_input(data@) == Err::<(Seq<u8>, Seq<SymbolModel>), ManifestFault>(e),
        },
{
    let (format, base) = match (read_format(data), read_base(data)) {
        (Some(format), Some(base)) => (format, base),
        _ => return Err(ManifestFault::BadBinary),
    };
    let build_id: Vec<u8> = match read_uuid(data) {
        Some(uuid) => copy_bytes(&uuid),
        None => match read_build_id(data) {
            Some(id) => id,
            None => return Err(ManifestFault::NoBuildId),
        },
    };
    let macho: bool = format == Format::MachO;
    match (read_symbols(data), read_addresses(data)) {
        (Some(symbols), Some(addresses)) => Ok(
            ManifestInput { build_id, symbols: list_symbols(&symbols, &addresses, macho, base) },
        ),
        _ => Err(ManifestFault::BadBinary),
    }
}

} // verus!
