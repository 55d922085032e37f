//! Symbols of PDBs.

use std::collections::{HashMap, HashSet};
use vstd::prelude::*;
use vstd::utf8::*;
use crate::bytes::{byte_rows, copy_bytes, le32, push_u32};
use crate::order::{ascending, find_sorted, same_keys, sorted_distinct};
use crate::text::{encode_chars, to_chars};
use crate::util::manifest::format::{
    symbol_models, ManifestInput, ManifestSymbol, SymbolModel, FLAG_CODE, FLAG_DATA,
    FLAG_INLINE_SITES, FLAG_LOCAL,
};
use super::names::{is_skip_symbol, is_skipped};
use super::ManifestFault;

verus! {

/// A public symbol: its name, its address where the PDB maps it, and whether it is a function.
pub struct PublicFact {
    pub name: String,
    pub rva: Option<u32>,
    pub function: bool,
}

/// A procedure or data record of a module.
pub struct RecordFact {
    pub name: String,
    pub rva: Option<u32>,
    /// Whether it is a procedure rather than data.
    pub code: bool,
    pub global: bool,
}

/// A function id: a bare name, and the scope string or the class that it belongs to.
pub struct FunctionId {
    pub name: String,
    pub scope: Option<u32>,
    pub parent_class: Option<u32>,
}

/// What names the functions that are inlined somewhere.
pub struct InlineeFacts {
    /// Class names by type index.
    pub class_names: HashMap<u32, String>,
    /// Functions by id index.
    pub functions: HashMap<u32, FunctionId>,
    /// Scope strings by id index.
    pub scope_strings: HashMap<u32, String>,
    /// The ids of the functions that are inlined.
    pub inlinees: Vec<u32>,
}

/// What a PDB says of the symbols of its executable.
pub struct PdbFacts {
    pub publics: Vec<PublicFact>,
    pub records: Vec<RecordFact>,
    /// What names the inlined functions, where it could be read.
    pub inlinees: Option<InlineeFacts>,
}

/// The text that stands under an index.
pub open spec fn text_under(texts: Map<u32, String>, index: u32) -> Option<Seq<char>> {
    if texts.contains_key(index) {
        Some(texts[index]@)
    } else {
        None
    }
}

/// A name behind the name of what it belongs to, where that is known.
pub open spec fn scoped(scope: Option<Seq<char>>, name: Seq<char>) -> Seq<char> {
    match scope {
        Some(scope) => scope + "::"@ + name,
        None => name,
    }
}

/// The qualified name of a function: behind its class, or else behind its scope.
pub open spec fn qualified(facts: InlineeFacts, f: FunctionId) -> Seq<char> {
    match (f.parent_class, f.scope) {
        (Some(parent), _) => scoped(text_under(facts.class_names@, parent), f.name@),
        (None, Some(scope)) => scoped(text_under(facts.scope_strings@, scope), f.name@),
        (None, None) => f.name@,
    }
}

/// The qualified names of the first `n` inlined functions whose ids are known.
pub open spec fn inlined_names(facts: InlineeFacts, n: int) -> Seq<Seq<u8>>
    decreases n,
{
    if n <= 0 {
        Seq::empty()
    } else if facts.functions@.contains_key(facts.inlinees@[n - 1]) {
        inlined_names(facts, n - 1).push(
            encode_utf8(qualified(facts, facts.functions@[facts.inlinees@[n - 1]])),
        )
    } else {
        inlined_names(facts, n - 1)
    }
}

fn join_scope(texts: &HashMap<u32, String>, scope: u32, name: &String) -> (r: Vec<u8>)
    ensures
        r@ == encode_utf8(scoped(text_under(texts@, scope), name@)),
{
    broadcast use vstd::std_specs::hash::group_hash_axioms;

    match texts.get(&scope) {
        Some(text) => {
            let mut out: Vec<char> = to_chars(text.as_str());
            let mut colons: Vec<char> = to_chars("::");
            let mut tail: Vec<char> = to_chars(name.as_str());
            out.append(&mut colons);
            out.append(&mut tail);
            encode_chars(&out)
        },
        None => copy_bytes(name.as_str().as_bytes()),
    }
}

/// Qualified names of every function that appears as an inlinee somewhere in the PDB, each once and
/// in order.
pub fn collect_inlined_names(facts: &InlineeFacts) -> (r: Vec<Vec<u8>>)
    ensures
        ascending::<Vec<u8>>(byte_rows(r@)),
        same_keys(byte_rows(r@), inlined_names(*facts, facts.inlinees@.len() as int)),
{
    broadcast use vstd::std_specs::hash::group_hash_axioms;

    let mut names: Vec<Vec<u8>> = Vec::new();
    let mut i: usize = 0;
    assert(byte_rows(names@) =~= Seq::empty());
    while i < facts.inlinees.len()
        invariant
            i <= facts.inlinees@.len(),
            byte_rows(names@) == inlined_names(*facts, i as int),
        decreases facts.inlinees@.len() - i,
    {
        let ghost before = byte_rows(names@);
        match facts.functions.get(&facts.inlinees[i]) {
            Some(f) => {
                let name: Vec<u8> = match f.parent_class {
                    Some(parent) => join_scope(&facts.class_names, parent, &f.name),
                    None => match f.scope {
                        Some(scope) => join_scope(&facts.scope_strings, scope, &f.name),
                        None => copy_bytes(f.name.as_str().as_bytes()),
                    },
                };
                assert(name@ == encode_utf8(qualified(*facts, *f)));
                names.push(name);
                assert(byte_rows(names@) =~= before.push(name@));
            },
            None => {},
        }
        i = i + 1;
    }
    sorted_distinct(&names)
}

/// The entry of a public symbol that has an address.
pub open spec fn public_entry(public: PublicFact) -> Option<SymbolModel> {
    match public.rva {
        None => None,
        Some(rva) => if is_skipped(encode_utf8(public.name@)) {
            None
        } else {
            Some(
                SymbolModel {
                    name: encode_utf8(public.name@),
                    rva: rva as u64,
                    flags: if public.function {
                        FLAG_CODE
                    } else {
                        FLAG_DATA
                    },
                },
            )
        },
    }
}

/// The entry of a module record that has an address; address zero is that of a discarded
/// contribution.
pub open spec fn record_entry(record: RecordFact, inlined: Seq<Seq<u8>>) -> Option<SymbolModel> {
    let local = if record.global {
        0
    } else {
        FLAG_LOCAL
    };
    match record.rva {
        None => None,
        Some(rva) => if rva == 0 || is_skipped(encode_utf8(record.name@)) {
            None
        } else {
            Some(
                SymbolModel {
                    name: encode_utf8(record.name@),
                    rva: rva as u64,
                    flags: if !record.code {
                        FLAG_DATA | local
                    } else if inlined.contains(encode_utf8(record.name@)) {
                        FLAG_CODE | local | FLAG_INLINE_SITES
                    } else {
                        FLAG_CODE | local
                    },
                },
            )
        },
    }
}

/// The entries of the first `n` public symbols.
pub open spec fn public_entries(publics: Seq<PublicFact>, n: int) -> Seq<SymbolModel>
    decreases n,
{
    if n <= 0 {
        Seq::empty()
    } else {
        match public_entry(publics[n - 1]) {
            Some(entry) => public_entries(publics, n - 1).push(entry),
            None => public_entries(publics, n - 1),
        }
    }
}

/// The entries of the public symbols, and behind them those of the first `n` module records.
pub open spec fn with_record_entries(
    before: Seq<SymbolModel>,
    records: Seq<RecordFact>,
    inlined: Seq<Seq<u8>>,
    n: int,
) -> Seq<SymbolModel>
    decreases n,
{
    if n <= 0 {
        before
    } else {
        match record_entry(records[n - 1], inlined) {
            Some(entry) => with_record_entries(before, records, inlined, n - 1).push(entry),
            None => with_record_entries(before, records, inlined, n - 1),
        }
    }
}

/// Whether an entry at an address has inline sites.
pub open spec fn is_flagged(entries: Seq<SymbolModel>, rva: u64) -> bool {
    exists|i: int|
        0 <= i < entries.len() && (#[trigger] entries[i]).rva == rva && entries[i].flags
            & FLAG_INLINE_SITES != 0
}

/// An entry with the inline-site flag where it is code and another entry at its address has it.
pub open spec fn with_flag(entries: Seq<SymbolModel>, entry: SymbolModel) -> SymbolModel {
    if entry.flags & FLAG_CODE != 0 && is_flagged(entries, entry.rva) {
        SymbolModel { flags: entry.flags | FLAG_INLINE_SITES, ..entry }
    } else {
        entry
    }
}

/// The entries, with the inline-site flag on every code record at the address of a flagged one, so
/// that the decorated public alias of a flagged procedure carries it too.
pub open spec fn propagated(entries: Seq<SymbolModel>) -> Seq<SymbolModel> {
    Seq::new(entries.len(), |i: int| with_flag(entries, entries[i]))
}

/// The names of the inlined functions, where it is known.
pub open spec fn names_inlined(facts: PdbFacts) -> Seq<Seq<u8>> {
    match facts.inlinees {
        Some(inlinees) => inlined_names(inlinees, inlinees.inlinees@.len() as int),
        None => Seq::empty(),
    }
}

/// The entries of a PDB, before inline-site flags are propagated.
pub open spec fn pdb_entries(facts: PdbFacts) -> Seq<SymbolModel> {
    with_record_entries(
        public_entries(facts.publics@, facts.publics@.len() as int),
        facts.records@,
        names_inlined(facts),
        facts.records@.len() as int,
    )
}

/// What tells a PDB from others.
pub struct PdbIdentity {
    pub guid: [u8; 16],
    /// The age of the PDB.
    pub age: u32,
    /// The age that the debug information gives.
    pub debug_age: Option<u32>,
}

impl View for PdbIdentity {
    type V = (Seq<u8>, u32, Option<u32>);

    open spec fn view(&self) -> (Seq<u8>, u32, Option<u32>) {
        (self.guid@, self.age, self.debug_age)
    }
}

/// The GUID and the age that `pdb::PDB::pdb_information` gives, and the age that
/// `pdb::PDB::debug_information` gives; nothing where one of them cannot be read.
pub uninterp spec fn pdb_identity(data: Seq<u8>) -> Option<(Seq<u8>, u32, Option<u32>)>;

/// Whether sizes of 32 bits can be added up on this machine.
pub open spec fn adds_sizes() -> bool {
    usize::MAX > u32::MAX
}

/// `pdb::PDB::pdb_information` and `pdb::PDB::debug_information`: what tells a PDB from others, under
/// the name of the result. A machine with addresses of 32 bits is left out: the crate adds to sizes
/// of 32 bits without a test that the sum fits.
#[verifier::external_body]
fn read_identity(data: &[u8]) -> (r: Option<PdbIdentity>)
    requires
        adds_sizes(),
    ensures
        match r {
            Some(identity) => pdb_identity(data@) == Some(identity@),
            None => pdb_identity(data@) is None,
        },
{
    let mut pdb = ::pdb::PDB::open(std::io::Cursor::new(data)).ok()?;
    let info = pdb.pdb_information().ok()?;
    let debug_age = pdb.debug_information().ok()?.age();
    Some(PdbIdentity { guid: *info.guid.as_bytes(), age: info.age, debug_age })
}

/// The build id of a PDB with an identity: its GUID, and the age that its debug information gives, or
/// else its own.
pub open spec fn identity_bytes(identity: (Seq<u8>, u32, Option<u32>)) -> Seq<u8> {
    identity.0 + le32(
        match identity.2 {
            Some(age) => age,
            None => identity.1,
        },
    )
}

/// Find the build id of a PDB with an identity.
pub fn encode_identity(identity: &PdbIdentity) -> (r: Vec<u8>)
    ensures
        r@ == identity_bytes(identity@),
{
    let mut id: Vec<u8> = copy_bytes(&identity.guid);
    push_u32(
        &mut id,
        match identity.debug_age {
            Some(age) => age,
            None => identity.age,
        },
    );
    id
}

/// The build id of a PDB; nothing where it cannot be read.
pub open spec fn build_id_of(data: Seq<u8>) -> Option<Seq<u8>> {
    match pdb_identity(data) {
        Some(identity) if adds_sizes() => Some(identity_bytes(identity)),
        _ => None,
    }
}

/// Find the build id of a PDB.
pub fn pdb_build_id(data: &[u8]) -> (r: Option<Vec<u8>>)
    ensures
        match r {
            Some(id) => build_id_of(data@) == Some(id@),
            None => build_id_of(data@) is None,
        },
{
    if usize::MAX as u64 <= u32::MAX as u64 {
        return None;
    }
    match read_identity(data) {
        Some(identity) => Some(encode_identity(&identity)),
        None => None,
    }
}

fn push_entry(out: &mut Vec<ManifestSymbol>, name: &String, rva: u64, flags: u32)
    ensures
        symbol_models(final(out)@) == symbol_models(old(out)@).push(
            (SymbolModel { name: encode_utf8(name@), rva, flags }),
        ),
{
    out.push(ManifestSymbol { name: name.clone(), rva, flags });
    assert(symbol_models(out@) =~= symbol_models(old(out)@).push(
        SymbolModel { name: encode_utf8(name@), rva, flags },
    ));
}

/// List the public symbols.
pub fn list_publics(publics: &[PublicFact]) -> (r: Vec<ManifestSymbol>)
    ensures
        symbol_models(r@) == public_entries(publics@, publics@.len() as int),
{
    let mut out: Vec<ManifestSymbol> = Vec::new();
    let mut i: usize = 0;
    assert(symbol_models(out@) =~= Seq::empty());
    while i < publics.len()
        invariant
            i <= publics@.len(),
            symbol_models(out@) == public_entries(publics@, i as int),
        decreases publics@.len() - i,
    {
        let public: &PublicFact = &publics[i];
        match public.rva {
            Some(rva) => if !is_skip_symbol(public.name.as_str()) {
                let flags: u32 = if public.function {
                    FLAG_CODE
                } else {
                    FLAG_DATA
                };
                push_entry(&mut out, &public.name, rva as u64, flags);
            },
            None => {},
        }
        i = i + 1;
    }
    out
}

/// List the module records behind the public symbols.
pub fn list_records(out: &mut Vec<ManifestSymbol>, records: &[RecordFact], inlined: &[Vec<u8>])
    requires
        ascending::<Vec<u8>>(byte_rows(inlined@)),
    ensures
        symbol_models(final(out)@) == with_record_entries(
            symbol_models(old(out)@),
            records@,
            byte_rows(inlined@),
            records@.len() as int,
        ),
{
    let ghost before = symbol_models(out@);
    let mut i: usize = 0;
    while i < records.len()
        invariant
            i <= records@.len(),
            ascending::<Vec<u8>>(byte_rows(inlined@)),
            before == symbol_models(old(out)@),
            symbol_models(out@) == with_record_entries(
                before,
                records@,
                byte_rows(inlined@),
                i as int,
            ),
        decreases records@.len() - i,
    {
        let record: &RecordFact = &records[i];
        let local: u32 = if record.global {
            0
        } else {
            FLAG_LOCAL
        };
        match record.rva {
            Some(rva) => if rva != 0 && !is_skip_symbol(record.name.as_str()) {
                let flags: u32 = if !record.code {
                    FLAG_DATA | local
                } else if find_sorted(inlined, record.name.as_str().as_bytes()) {
                    FLAG_CODE | local | FLAG_INLINE_SITES
                } else {
                    FLAG_CODE | local
                };
                push_entry(out, &record.name, rva as u64, flags);
            },
            None => {},
        }
        i = i + 1;
    }
}

/// Collect the addresses of entries that have inline sites.
fn collect_flagged(symbols: &[ManifestSymbol]) -> (r: HashSet<u64>)
    ensures
        forall|rva: u64| #[trigger] r@.contains(rva) <==> is_flagged(symbol_models(symbols@), rva),
{
    broadcast use vstd::std_specs::hash::group_hash_axioms;

    let ghost models = symbol_models(symbols@);
    let mut flagged: HashSet<u64> = HashSet::new();
    let mut i: usize = 0;
    while i < symbols.len()
        invariant
            i <= symbols@.len(),
            models == symbol_models(symbols@),
            forall|rva: u64| #[trigger]
                flagged@.contains(rva) <==> exists|k: int|
                    0 <= k < i && (#[trigger] models[k]).rva == rva && models[k].flags
                        & FLAG_INLINE_SITES != 0,
        decreases symbols@.len() - i,
    {
        let ghost before = flagged@;
        assert(models[i as int] == symbols@[i as int]@);
        if symbols[i].flags & FLAG_INLINE_SITES != 0 {
            flagged.insert(symbols[i].rva);
        }
        assert forall|rva: u64| #[trigger]
            flagged@.contains(rva) implies exists|k: int|
            0 <= k < i + 1 && (#[trigger] models[k]).rva == rva && models[k].flags
                & FLAG_INLINE_SITES != 0 by {
            if before.contains(rva) {
                let k = choose|k: int|
                    0 <= k < i && (#[trigger] models[k]).rva == rva && models[k].flags
                        & FLAG_INLINE_SITES != 0;
                assert(models[k].rva == rva);
            } else {
                assert(models[i as int].rva == rva);
            }
        }
        i = i + 1;
    }
    flagged
}

/// Propagate the inline-site flag across every code record at the same address.
pub fn propagate(symbols: Vec<ManifestSymbol>) -> (r: Vec<ManifestSymbol>)
    ensures
        symbol_models(r@) == propagated(symbol_models(symbols@)),
{
    broadcast use vstd::std_specs::hash::group_hash_axioms;

    let ghost models = symbol_models(symbols@);
    let flagged: HashSet<u64> = collect_flagged(&symbols);
    let mut out: Vec<ManifestSymbol> = Vec::new();
    let mut i: usize = 0;
    assert(symbol_models(out@) =~= Seq::empty());
    while i < symbols.len()
        invariant
            i <= symbols@.len(),
            models == symbol_models(symbols@),
            forall|rva: u64| #[trigger] flagged@.contains(rva) <==> is_flagged(models, rva),
            symbol_models(out@) == propagated(models).subrange(0, i as int),
        decreases symbols@.len() - i,
    {
        let symbol: &ManifestSymbol = &symbols[i];
        assert(models[i as int] == symbol@);
        let flags: u32 = if symbol.flags & FLAG_CODE != 0 && flagged.contains(&symbol.rva) {
            symbol.flags | FLAG_INLINE_SITES
        } else {
            symbol.flags
        };
        push_entry(&mut out, &symbol.name, symbol.rva, flags);
        assert(symbol_models(out@) =~= propagated(models).subrange(0, i + 1));
        i = i + 1;
    }
    assert(symbol_models(out@) =~= propagated(models));
    out
}

/// Which names are inlined matters, not their order or how often they occur.
proof fn lemma_same_names(
    before: Seq<SymbolModel>,
    records: Seq<RecordFact>,
    a: Seq<Seq<u8>>,
    b: Seq<Seq<u8>>,
    n: int,
)
    requires
        same_keys(a, b),
    ensures
        with_record_entries(before, records, a, n) == with_record_entries(before, records, b, n),
    decreases n,
{
    if n > 0 {
        lemma_same_names(before, records, a, b, n - 1);
        assert(a.contains(encode_utf8(records[n - 1].name@)) <==> b.contains(
            encode_utf8(records[n - 1].name@),
        ));
    }
}

/// Symbols of a PDB: publics (linkable surface) plus per-module procedure and data records
/// (statics).
pub fn list_pdb(facts: &PdbFacts) -> (r: Vec<ManifestSymbol>)
    ensures
        symbol_models(r@) == propagated(pdb_entries(*facts)),
{
    let inlined: Vec<Vec<u8>> = match &facts.inlinees {
        Some(inlinees) => collect_inlined_names(inlinees),
        None => Vec::new(),
    };
    let mut symbols: Vec<ManifestSymbol> = list_publics(&facts.publics);
    list_records(&mut symbols, &facts.records, &inlined);
    proof {
        assert(byte_rows(inlined@).len() == 0 || facts.inlinees is Some);
        lemma_same_names(
            public_entries(facts.publics@, facts.publics@.len() as int),
            facts.records@,
            byte_rows(inlined@),
            names_inlined(*facts),
            facts.records@.len() as int,
        );
    }
    propagate(symbols)
}

/// What the manifest of an executable is made of, by its PDB: the build id, and the symbols.
pub open spec fn pdb_input(data: Seq<u8>, facts: PdbFacts) -> Result<
    (Seq<u8>, Seq<SymbolModel>),
    ManifestFault,
> {
    match build_id_of(data) {
        Some(id) => Ok((id, propagated(pdb_entries(facts)))),
        None => Err(ManifestFault::BadPdb),
    }
}

/// Symbols and build id of a PDB of which the symbol facts are given.
pub fn read_pdb(data: &[u8], facts: &PdbFacts) -> (r: Result<ManifestInput, ManifestFault>)
    ensures
        match r {
            Ok(input) => pdb_input(data@, *facts) == Ok::<
                (Seq<u8>, Seq<SymbolModel>),
                ManifestFault,
            >((input.build_id@, symbol_models(input.symbols@))),
            Err(e) => pdb_input(data@, *facts) == Err::<
                (Seq<u8>, Seq<SymbolModel>),
                ManifestFault,
            >(e),
        },
{
    match pdb_build_id(data) {
        Some(build_id) => Ok(ManifestInput { build_id, symbols: list_pdb(facts) }),
        None => Err(ManifestFault::BadPdb),
    }
}

proof fn lemma_flag_bits(flags: u32)
    ensures
        (flags | FLAG_INLINE_SITES) & FLAG_INLINE_SITES != 0,
        (flags | FLAG_INLINE_SITES) & FLAG_CODE == flags & FLAG_CODE,
{
    assert((flags | 32) & 32 != 0 && (flags | 32) & 1 == flags & 1) by (bit_vector);
}

/// After propagation, of the code entries at one address either all have inline sites or none has.
pub proof fn law_inline_sites_agree(entries: Seq<SymbolModel>, i: int, k: int)
    requires
        0 <= i < entries.len(),
        0 <= k < entries.len(),
        entries[i].rva == entries[k].rva,
        entries[i].flags & FLAG_CODE != 0,
        entries[k].flags & FLAG_CODE != 0,
    ensures
        propagated(entries)[i].flags & FLAG_INLINE_SITES != 0 <==> propagated(entries)[k].flags
            & FLAG_INLINE_SITES != 0,
{
    lemma_flag_bits(entries[i].flags);
    lemma_flag_bits(entries[k].flags);
}

} // verus!
