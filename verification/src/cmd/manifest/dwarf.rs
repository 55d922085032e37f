//! The source files of DWARF units, and the aliases of the functions in them.

use std::collections::HashMap;
use vstd::prelude::*;
use vstd::utf8::*;
use crate::order::{goes_first, is_order, order_of, Ranked};
use crate::text::{same_chars, to_chars};
use crate::util::manifest::format::{
    symbol_models, ManifestSymbol, SymbolModel, FLAG_CODE, FLAG_DISPLAY,
};
use super::aliases::{alias_of, binary_alias, binary_name, FunctionRecord};
use super::binary::relative;
use super::path::{source_in, PathView, SourceRoot};

verus! {

/// Why the source files of a binary cannot be told.
#[derive(Clone, Copy, Debug, PartialEq, Eq, Structural)]
pub enum DwarfError {
    /// A unit has no language, so its scope is not known.
    NoLanguage,
    /// A C or C++ unit is missing its primary source.
    NoName,
    NotUtf8,
    /// An object of the debug map has no units.
    NoUnits,
    /// An object with more than one unit has one that is in scope.
    Ambiguous,
    /// Origins of subprograms refer to each other in a cycle, or too deeply.
    TooDeep,
    /// There is no entry at the offset.
    NoEntry(u64),
    /// An origin points outside the debug information.
    OriginOutside,
    /// The binary has no embedded DWARF.
    NoDebugInfo,
}

/// The language of a unit.
#[derive(Clone, Copy, Debug, PartialEq, Eq, Structural)]
pub enum Language {
    Missing,
    Code(u16),
    Other,
}

/// A compilation unit: its language, and its source file and working directory where they are UTF-8.
pub struct UnitFact {
    pub language: Language,
    pub name: Option<String>,
    pub comp_dir: Option<String>,
}

/// Whether a DWARF language code is one of C or C++.
pub open spec fn is_cpp(code: u16) -> bool {
    // C89, C, C++, C99, C++03, C++11, C11, C++14, C++17, C++20, C17
    code == 0x01 || code == 0x02 || code == 0x04 || code == 0x0c || code == 0x19 || code == 0x1a
        || code == 0x1d || code == 0x21 || code == 0x2a || code == 0x2b || code == 0x2c
}

/// The source file of a unit below the root; nothing where it is out of scope.
pub open spec fn unit_source(unit: UnitFact, root: PathView) -> Result<
    Option<Seq<char>>,
    DwarfError,
> {
    match unit.language {
        Language::Missing => match (unit.name, unit.comp_dir) {
            (Some(name), Some(dir)) => if name@.len() > 0 && source_in(
                root,
                name@,
                dir@,
            ) is None {
                Ok(None)
            } else {
                Err(DwarfError::NoLanguage)
            },
            _ => Err(DwarfError::NotUtf8),
        },
        Language::Other => Ok(None),
        Language::Code(code) => if !is_cpp(code) {
            Ok(None)
        } else {
            match (unit.name, unit.comp_dir) {
                (None, _) => Err(DwarfError::NotUtf8),
                (Some(name), dir) => if name@.len() == 0 {
                    Err(DwarfError::NoName)
                } else {
                    match dir {
                        None => Err(DwarfError::NotUtf8),
                        Some(dir) => Ok(source_in(root, name@, dir@)),
                    }
                },
            }
        },
    }
}

/// Find the source file of a unit below the root.
pub fn source(unit: &UnitFact, root: &SourceRoot) -> (r: Result<Option<String>, DwarfError>)
    ensures
        match r {
            Ok(Some(path)) => unit_source(*unit, root@) == Ok::<Option<Seq<char>>, DwarfError>(
                Some(path@),
            ),
            Ok(None) => unit_source(*unit, root@) == Ok::<Option<Seq<char>>, DwarfError>(None),
            Err(e) => unit_source(*unit, root@) == Err::<Option<Seq<char>>, DwarfError>(e),
        },
{
    match unit.language {
        Language::Missing => match (&unit.name, &unit.comp_dir) {
            (Some(name), Some(dir)) => if to_chars(name.as_str()).len() > 0 && root.source(
                name.as_str(),
                dir.as_str(),
            ).is_none() {
                Ok(None)
            } else {
                Err(DwarfError::NoLanguage)
            },
            _ => Err(DwarfError::NotUtf8),
        },
        Language::Other => Ok(None),
        Language::Code(code) => {
            if !(code == 0x01 || code == 0x02 || code == 0x04 || code == 0x0c || code == 0x19
                || code == 0x1a || code == 0x1d || code == 0x21 || code == 0x2a || code == 0x2b
                || code == 0x2c) {
                return Ok(None);
            }
            let name: &String = match &unit.name {
                Some(name) => name,
                None => return Err(DwarfError::NotUtf8),
            };
            if to_chars(name.as_str()).len() == 0 {
                return Err(DwarfError::NoName);
            }
            match &unit.comp_dir {
                Some(dir) => Ok(root.source(name.as_str(), dir.as_str())),
                None => Err(DwarfError::NotUtf8),
            }
        },
    }
}

/// The source file of the last of the first `n` units that is in scope.
pub open spec fn last_source(units: Seq<UnitFact>, root: PathView, n: int) -> Result<
    Option<Seq<char>>,
    DwarfError,
>
    decreases n,
{
    if n <= 0 {
        Ok(None)
    } else {
        match last_source(units, root, n - 1) {
            Err(e) => Err(e),
            Ok(before) => match unit_source(units[n - 1], root) {
                Err(e) => Err(e),
                Ok(None) => Ok(before),
                Ok(Some(path)) => Ok(Some(path)),
            },
        }
    }
}

/// The source file of an object: only objects with a single C or C++ unit can be owned by one.
pub open spec fn owner_of(units: Seq<UnitFact>, root: PathView) -> Result<
    Option<Seq<char>>,
    DwarfError,
> {
    match last_source(units, root, units.len() as int) {
        Err(e) => Err(e),
        Ok(selected) => if units.len() == 0 {
            Err(DwarfError::NoUnits)
        } else if units.len() > 1 && selected is Some {
            Err(DwarfError::Ambiguous)
        } else {
            Ok(selected)
        },
    }
}

proof fn lemma_last_error(units: Seq<UnitFact>, root: PathView, n: int, m: int)
    requires
        0 <= n <= m,
        last_source(units, root, n) is Err,
    ensures
        last_source(units, root, m) == last_source(units, root, n),
    decreases m,
{
    if n < m {
        lemma_last_error(units, root, n, m - 1);
    }
}

/// The text of an optional string.
pub open spec fn path_text(path: Option<String>) -> Option<Seq<char>> {
    match path {
        Some(path) => Some(path@),
        None => None,
    }
}

/// Find the source file of an object.
pub fn object_source(units: &[UnitFact], root: &SourceRoot) -> (r: Result<
    Option<String>,
    DwarfError,
>)
    ensures
        match r {
            Ok(path) => owner_of(units@, root@) == Ok::<Option<Seq<char>>, DwarfError>(
                path_text(path),
            ),
            Err(e) => owner_of(units@, root@) == Err::<Option<Seq<char>>, DwarfError>(e),
        },
{
    let mut selected: Option<String> = None;
    let mut i: usize = 0;
    while i < units.len()
        invariant
            i <= units@.len(),
            last_source(units@, root@, i as int) == Ok::<Option<Seq<char>>, DwarfError>(
                path_text(selected),
            ),
        decreases units@.len() - i,
    {
        match source(&units[i], root) {
            Ok(Some(path)) => {
                selected = Some(path);
            },
            Ok(None) => {},
            Err(e) => {
                proof {
                    lemma_last_error(units@, root@, i + 1, units@.len() as int);
                }
                return Err(e);
            },
        }
        i = i + 1;
    }
    if units.len() == 0 {
        return Err(DwarfError::NoUnits);
    }
    if units.len() > 1 && selected.is_some() {
        return Err(DwarfError::Ambiguous);
    }
    Ok(selected)
}

/// Where an entry says that it comes from.
#[derive(Clone, Copy, Debug, PartialEq, Eq, Structural)]
pub enum Origin {
    Absent,
    /// Another entry, at an offset of the debug information.
    Entry(u64),
    /// No unit holds the offset.
    Outside,
}

/// What an entry says of its linkage name: the names where they are there, and in them the texts
/// where they are UTF-8.
pub struct EntryFact {
    pub linkage_name: Option<Option<String>>,
    pub mips_linkage_name: Option<Option<String>>,
    pub specification: Origin,
    pub abstract_origin: Origin,
}

/// How deep origins may still go.
pub open spec fn origins_left(depth: int) -> int {
    if depth < 32 {
        32 - depth
    } else {
        0
    }
}

/// The linkage name of an entry: its own, or else that of what it specifies or is a copy of. Only
/// names and origins are followed.
pub open spec fn linkage_name(entries: Map<u64, EntryFact>, at: u64, depth: int) -> Result<
    Option<Seq<char>>,
    DwarfError,
>
    decreases origins_left(depth),
{
    let entry = entries[at];
    if depth >= 32 {
        Err(DwarfError::TooDeep)
    } else if !entries.contains_key(at) {
        Err(DwarfError::NoEntry(at))
    } else {
        match (
            entry.linkage_name,
            entry.mips_linkage_name,
            entry.specification,
            entry.abstract_origin,
        ) {
            (Some(Some(name)), _, _, _) => Ok(Some(name@)),
            (Some(None), _, _, _) => Err(DwarfError::NotUtf8),
            (None, Some(Some(name)), _, _) => Ok(Some(name@)),
            (None, Some(None), _, _) => Err(DwarfError::NotUtf8),
            (None, None, Origin::Entry(to), _) => linkage_name(entries, to, depth + 1),
            (None, None, Origin::Outside, _) => Err(DwarfError::OriginOutside),
            (None, None, Origin::Absent, Origin::Entry(to)) => linkage_name(
                entries,
                to,
                depth + 1,
            ),
            (None, None, Origin::Absent, Origin::Outside) => Err(DwarfError::OriginOutside),
            (None, None, Origin::Absent, Origin::Absent) => Ok(None),
        }
    }
}

/// Find the linkage name of an entry.
pub fn linkage(entries: &HashMap<u64, EntryFact>, at: u64, depth: usize) -> (r: Result<
    Option<String>,
    DwarfError,
>)
    ensures
        match r {
            Ok(name) => linkage_name(entries@, at, depth as int) == Ok::<
                Option<Seq<char>>,
                DwarfError,
            >(path_text(name)),
            Err(e) => linkage_name(entries@, at, depth as int) == Err::<
                Option<Seq<char>>,
                DwarfError,
            >(e),
        },
    decreases origins_left(depth as int),
{
    broadcast use vstd::std_specs::hash::group_hash_axioms;

    if depth >= 32 {
        return Err(DwarfError::TooDeep);
    }
    let entry: &EntryFact = match entries.get(&at) {
        Some(entry) => entry,
        None => return Err(DwarfError::NoEntry(at)),
    };
    match &entry.linkage_name {
        Some(Some(name)) => return Ok(Some(name.clone())),
        Some(None) => return Err(DwarfError::NotUtf8),
        None => {},
    }
    match &entry.mips_linkage_name {
        Some(Some(name)) => return Ok(Some(name.clone())),
        Some(None) => return Err(DwarfError::NotUtf8),
        None => {},
    }
    match entry.specification {
        Origin::Entry(to) => return linkage(entries, to, depth + 1),
        Origin::Outside => return Err(DwarfError::OriginOutside),
        Origin::Absent => {},
    }
    match entry.abstract_origin {
        Origin::Entry(to) => linkage(entries, to, depth + 1),
        Origin::Outside => Err(DwarfError::OriginOutside),
        Origin::Absent => Ok(None),
    }
}

/// A symbol that can get an alias, and whether it is an ordinary function.
pub struct CodeSymbol {
    pub name: String,
    pub rva: u64,
    pub flags: u32,
    pub ordinary: bool,
}

impl Ranked for CodeSymbol {
    type Key = u64;

    open spec fn key(&self) -> u64 {
        self.rva
    }

    open spec fn precedes(a: u64, b: u64) -> bool {
        a < b
    }

    proof fn precedes_irreflexive(a: u64) {
    }

    proof fn precedes_transitive(a: u64, b: u64, c: u64) {
    }

    proof fn precedes_total(a: u64, b: u64) {
    }

    fn less(&self, other: &Self) -> bool {
        self.rva < other.rva
    }
}

/// A symbol as a plain value.
pub struct CodeView {
    pub name: Seq<char>,
    pub rva: u64,
    pub flags: u32,
    pub ordinary: bool,
}

impl View for CodeSymbol {
    type V = CodeView;

    open spec fn view(&self) -> CodeView {
        CodeView { name: self.name@, rva: self.rva, flags: self.flags, ordinary: self.ordinary }
    }
}

pub open spec fn code_views(code: Seq<CodeSymbol>) -> Seq<CodeView> {
    Seq::new(code.len(), |i: int| code[i]@)
}

/// The symbols at the given places, as far as they are code and no display aliases.
pub open spec fn code_at(symbols: Seq<CodeSymbol>, order: Seq<usize>, n: int) -> Seq<CodeView>
    decreases n,
{
    if n <= 0 {
        Seq::empty()
    } else {
        let symbol = symbols[order[n - 1] as int];
        if symbol.flags & (FLAG_CODE | FLAG_DISPLAY) == FLAG_CODE {
            code_at(symbols, order, n - 1).push(symbol@)
        } else {
            code_at(symbols, order, n - 1)
        }
    }
}

/// Whether symbols go by their addresses.
pub open spec fn by_address(code: Seq<CodeView>) -> bool {
    forall|i: int, k: int|
        0 <= i <= k < code.len() ==> (#[trigger] code[i]).rva <= (#[trigger] code[k]).rva
}

/// The code symbols by their addresses; those at one address keep their order.
pub fn sort_code(symbols: &[CodeSymbol]) -> (r: Vec<CodeSymbol>)
    ensures
        exists|order: Seq<usize>|
            #![trigger code_at(symbols@, order, order.len() as int)]
            is_order(symbols@, order, 0, symbols@.len() as int) && code_views(r@) == code_at(
                symbols@,
                order,
                order.len() as int,
            ),
        by_address(code_views(r@)),
{
    let order: Vec<usize> = order_of(symbols);
    let mut r: Vec<CodeSymbol> = Vec::new();
    let mut i: usize = 0;
    assert(code_views(r@) =~= Seq::empty());
    while i < order.len()
        invariant
            i <= order@.len(),
            is_order(symbols@, order@, 0, symbols@.len() as int),
            code_views(r@) == code_at(symbols@, order@, i as int),
            by_address(code_views(r@)),
            i > 0 ==> forall|k: int|
                0 <= k < r@.len() ==> (#[trigger] r@[k]).rva <= symbols@[order@[i
                    - 1] as int].rva,
            i == 0 ==> r@.len() == 0,
        decreases order@.len() - i,
    {
        let ghost before = code_views(r@);
        let ghost old_r = r@;
        let symbol: &CodeSymbol = &symbols[order[i]];
        proof {
            if i > 0 {
                assert(goes_first(
                    symbols@,
                    order@[i - 1] as int,
                    order@[i as int] as int,
                ));
            }
        }
        if symbol.flags & (FLAG_CODE | FLAG_DISPLAY) == FLAG_CODE {
            r.push(
                CodeSymbol {
                    name: symbol.name.clone(),
                    rva: symbol.rva,
                    flags: symbol.flags,
                    ordinary: symbol.ordinary,
                },
            );
            assert(code_views(r@) =~= before.push(symbol@));
            assert forall|a: int, b: int| 0 <= a <= b < code_views(r@).len() implies (
            #[trigger] code_views(r@)[a]).rva <= (#[trigger] code_views(r@)[b]).rva by {
                if b == before.len() && a < b {
                    assert(old_r[a].rva <= symbol.rva);
                    assert(code_views(r@)[a] == old_r[a]@);
                } else if a < b {
                    assert(before[a].rva <= before[b].rva);
                }
            }
            assert forall|k: int| 0 <= k < r@.len() implies (#[trigger] r@[k]).rva
                <= symbol.rva by {
                if k < old_r.len() {
                    assert(old_r[k].rva <= symbol.rva);
                }
            }
        }
        i = i + 1;
    }
    r
}

/// A subprogram: the offset of its entry, and its address ranges.
pub struct Subprogram {
    pub at: u64,
    pub ranges: Vec<(u64, u64)>,
}

/// A unit with its subprograms.
pub struct UnitCode {
    pub unit: UnitFact,
    pub subprograms: Vec<Subprogram>,
}

/// The aliases of those of the first `n` symbols that stand in a range and have the linkage name,
/// where there is one.
pub open spec fn range_aliases(
    code: Seq<CodeView>,
    source: Seq<char>,
    linkage: Option<Seq<char>>,
    start: u64,
    end: u64,
    n: int,
) -> Seq<SymbolModel>
    decreases n,
{
    if n <= 0 {
        Seq::empty()
    } else {
        let so_far = range_aliases(code, source, linkage, start, end, n - 1);
        let symbol = code[n - 1];
        if !(start <= symbol.rva < end) || (linkage is Some && linkage != Some(symbol.name)) {
            so_far
        } else {
            match binary_alias(symbol.name, symbol.ordinary) {
                None => so_far,
                Some(name) => match alias_of(source, name, symbol.rva, symbol.flags) {
                    None => so_far,
                    Some(alias) => so_far.push(alias),
                },
            }
        }
    }
}

/// Whether a symbol stands in a range.
pub open spec fn has_symbol(code: Seq<CodeView>, start: u64, end: u64) -> bool {
    exists|i: int| 0 <= i < code.len() && start <= (#[trigger] code[i]).rva < end
}

/// The aliases with those of the first `n` ranges of a subprogram. Address zero is the usual mark of
/// code that the linker has discarded.
pub open spec fn with_ranges(
    before: Seq<SymbolModel>,
    code: Seq<CodeView>,
    entries: Map<u64, EntryFact>,
    base: u64,
    source: Seq<char>,
    at: u64,
    ranges: Seq<(u64, u64)>,
    n: int,
) -> Result<Seq<SymbolModel>, DwarfError>
    decreases n,
{
    if n <= 0 {
        Ok(before)
    } else {
        match with_ranges(before, code, entries, base, source, at, ranges, n - 1) {
            Err(e) => Err(e),
            Ok(so_far) => {
                let (begin, end) = ranges[n - 1];
                let first = relative(begin, base);
                let last = relative(end, base);
                if begin == 0 || end <= begin || !has_symbol(code, first, last) {
                    Ok(so_far)
                } else {
                    match linkage_name(entries, at, 0) {
                        Err(e) => Err(e),
                        Ok(linkage) => Ok(
                            so_far + range_aliases(
                                code,
                                source,
                                linkage,
                                first,
                                last,
                                code.len() as int,
                            ),
                        ),
                    }
                }
            },
        }
    }
}

/// The aliases with those of the first `n` subprograms of a unit.
pub open spec fn with_subprograms(
    before: Seq<SymbolModel>,
    code: Seq<CodeView>,
    entries: Map<u64, EntryFact>,
    base: u64,
    source: Seq<char>,
    subprograms: Seq<Subprogram>,
    n: int,
) -> Result<Seq<SymbolModel>, DwarfError>
    decreases n,
{
    if n <= 0 {
        Ok(before)
    } else {
        match with_subprograms(before, code, entries, base, source, subprograms, n - 1) {
            Err(e) => Err(e),
            Ok(so_far) => with_ranges(
                so_far,
                code,
                entries,
                base,
                source,
                subprograms[n - 1].at,
                subprograms[n - 1].ranges@,
                subprograms[n - 1].ranges@.len() as int,
            ),
        }
    }
}

/// The aliases of the functions in the first `n` units.
pub open spec fn with_units(
    code: Seq<CodeView>,
    entries: Map<u64, EntryFact>,
    base: u64,
    root: PathView,
    units: Seq<UnitCode>,
    n: int,
) -> Result<Seq<SymbolModel>, DwarfError>
    decreases n,
{
    if n <= 0 {
        Ok(Seq::empty())
    } else {
        match with_units(code, entries, base, root, units, n - 1) {
            Err(e) => Err(e),
            Ok(so_far) => match unit_source(units[n - 1].unit, root) {
                Err(e) => Err(e),
                Ok(None) => Ok(so_far),
                Ok(Some(source)) => with_subprograms(
                    so_far,
                    code,
                    entries,
                    base,
                    source,
                    units[n - 1].subprograms@,
                    units[n - 1].subprograms@.len() as int,
                ),
            },
        }
    }
}

/// The aliases of the functions of a linked ELF binary.
pub open spec fn aliases_of(
    code: Seq<CodeView>,
    entries: Map<u64, EntryFact>,
    base: u64,
    root: PathView,
    units: Seq<UnitCode>,
) -> Result<Seq<SymbolModel>, DwarfError> {
    if units.len() == 0 {
        Err(DwarfError::NoDebugInfo)
    } else {
        with_units(code, entries, base, root, units, units.len() as int)
    }
}

/// The first place whose symbol does not stand before an address.
pub(crate) fn first_from(code: &[CodeSymbol], rva: u64) -> (r: usize)
    requires
        by_address(code_views(code@)),
    ensures
        r <= code@.len(),
        forall|i: int| 0 <= i < r ==> (#[trigger] code@[i]).rva < rva,
        forall|i: int| r <= i < code@.len() ==> (#[trigger] code@[i]).rva >= rva,
{
    let ghost views = code_views(code@);
    let mut lo: usize = 0;
    let mut hi: usize = code.len();
    while lo < hi
        invariant
            lo <= hi <= code@.len(),
            views == code_views(code@),
            by_address(views),
            forall|i: int| 0 <= i < lo ==> (#[trigger] code@[i]).rva < rva,
            forall|i: int| hi <= i < code@.len() ==> (#[trigger] code@[i]).rva >= rva,
        decreases hi - lo,
    {
        let mid: usize = lo + (hi - lo) / 2;
        assert forall|i: int| 0 <= i <= mid implies (#[trigger] code@[i]).rva
            <= code@[mid as int].rva by {
            assert(views[i].rva <= views[mid as int].rva);
        }
        assert forall|i: int| mid <= i < code@.len() implies (#[trigger] code@[i]).rva
            >= code@[mid as int].rva by {
            assert(views[mid as int].rva <= views[i].rva);
        }
        if code[mid].rva < rva {
            lo = mid + 1;
        } else {
            hi = mid;
        }
    }
    lo
}

proof fn lemma_range_outside(
    code: Seq<CodeView>,
    source: Seq<char>,
    linkage: Option<Seq<char>>,
    start: u64,
    end: u64,
    n: int,
    m: int,
)
    requires
        0 <= n <= m <= code.len(),
        forall|i: int| n <= i < m ==> !(start <= (#[trigger] code[i]).rva < end),
    ensures
        range_aliases(code, source, linkage, start, end, m) == range_aliases(
            code,
            source,
            linkage,
            start,
            end,
            n,
        ),
    decreases m - n,
{
    if n < m {
        lemma_range_outside(code, source, linkage, start, end, n, m - 1);
        assert(!(start <= code[m - 1].rva < end));
    }
}

fn same_name(name: &Option<String>, other: &String) -> (r: bool)
    ensures
        r == (path_text(*name) is None || path_text(*name) == Some(other@)),
{
    match name {
        None => true,
        Some(name) => same_chars(
            &to_chars(name.as_str()),
            &to_chars(other.as_str()),
        ),
    }
}

/// Add the aliases of the symbols from `first` to `last`.
fn push_aliases(
    code: &[CodeSymbol],
    source: &String,
    linkage: &Option<String>,
    start: u64,
    end: u64,
    first: usize,
    last: usize,
    out: &mut Vec<ManifestSymbol>,
)
    requires
        first <= last <= code@.len(),
        forall|i: int|
            0 <= i < code@.len() ==> (first <= i < last <==> start <= (#[trigger] code@[i]).rva
                < end),
    ensures
        symbol_models(final(out)@) == symbol_models(old(out)@) + range_aliases(
            code_views(code@),
            source@,
            path_text(*linkage),
            start,
            end,
            code@.len() as int,
        ),
{
    let ghost views = code_views(code@);
    let ghost wanted = path_text(*linkage);
    let ghost before = symbol_models(out@);
    proof {
        assert forall|i: int| 0 <= i < first implies !(start <= (#[trigger] views[i]).rva
            < end) by {
            assert(views[i].rva == code@[i].rva);
        }
        lemma_range_outside(views, source@, wanted, start, end, 0, first as int);
        assert(before + Seq::<SymbolModel>::empty() =~= before);
    }
    let mut i: usize = first;
    while i < last
        invariant
            first <= i <= last <= code@.len(),
            views == code_views(code@),
            wanted == path_text(*linkage),
            before == symbol_models(old(out)@),
            forall|k: int|
                0 <= k < code@.len() ==> (first <= k < last <==> start <= (
                #[trigger] code@[k]).rva < end),
            symbol_models(out@) == before + range_aliases(
                views,
                source@,
                wanted,
                start,
                end,
                i as int,
            ),
        decreases last - i,
    {
        let symbol: &CodeSymbol = &code[i];
        let ghost so_far = range_aliases(views, source@, wanted, start, end, i as int);
        assert(views[i as int] == symbol@);
        assert(start <= code@[i as int].rva < end);
        if same_name(linkage, &symbol.name) {
            match binary_name(symbol.name.as_str(), symbol.ordinary) {
                Some(name) => {
                    let record: FunctionRecord = FunctionRecord {
                        source: source.clone(),
                        name,
                        rva: symbol.rva,
                        flags: symbol.flags,
                        provenance: source.clone(),
                    };
                    match record.into_alias() {
                        Some(alias) => {
                            let ghost models = symbol_models(out@);
                            out.push(alias);
                            assert(symbol_models(out@) =~= models.push(alias@));
                            assert(models.push(alias@) =~= before + so_far.push(alias@));
                        },
                        None => {},
                    }
                },
                None => {},
            }
        }
        i = i + 1;
    }
    proof {
        assert forall|k: int| last <= k < views.len() implies !(start <= (
        #[trigger] views[k]).rva < end) by {
            assert(views[k].rva == code@[k].rva);
        }
        lemma_range_outside(
            views,
            source@,
            wanted,
            start,
            end,
            last as int,
            code@.len() as int,
        );
    }
}

proof fn lemma_ranges_error(
    before: Seq<SymbolModel>,
    code: Seq<CodeView>,
    entries: Map<u64, EntryFact>,
    base: u64,
    source: Seq<char>,
    at: u64,
    ranges: Seq<(u64, u64)>,
    n: int,
    m: int,
)
    requires
        0 <= n <= m,
        with_ranges(before, code, entries, base, source, at, ranges, n) is Err,
    ensures
        with_ranges(before, code, entries, base, source, at, ranges, m) == with_ranges(
            before,
            code,
            entries,
            base,
            source,
            at,
            ranges,
            n,
        ),
    decreases m,
{
    if n < m {
        lemma_ranges_error(before, code, entries, base, source, at, ranges, n, m - 1);
    }
}

/// Add the aliases of a subprogram.
fn push_subprogram(
    code: &[CodeSymbol],
    entries: &HashMap<u64, EntryFact>,
    base: u64,
    source: &String,
    subprogram: &Subprogram,
    out: &mut Vec<ManifestSymbol>,
) -> (r: Result<(), DwarfError>)
    requires
        by_address(code_views(code@)),
    ensures
        ({
            let wanted = with_ranges(
                symbol_models(old(out)@),
                code_views(code@),
                entries@,
                base,
                source@,
                subprogram.at,
                subprogram.ranges@,
                subprogram.ranges@.len() as int,
            );
            match r {
                Ok(_) => wanted == Ok::<Seq<SymbolModel>, DwarfError>(symbol_models(final(out)@)),
                Err(e) => wanted == Err::<Seq<SymbolModel>, DwarfError>(e),
            }
        }),
{
    let ghost views = code_views(code@);
    let ghost before = symbol_models(out@);
    let ranges: &Vec<(u64, u64)> = &subprogram.ranges;
    let mut i: usize = 0;
    while i < ranges.len()
        invariant
            i <= ranges@.len(),
            *ranges == subprogram.ranges,
            views == code_views(code@),
            by_address(views),
            before == symbol_models(old(out)@),
            with_ranges(
                before,
                views,
                entries@,
                base,
                source@,
                subprogram.at,
                ranges@,
                i as int,
            ) == Ok::<Seq<SymbolModel>, DwarfError>(symbol_models(out@)),
        decreases ranges@.len() - i,
    {
        let (begin, finish) = ranges[i];
        if begin != 0 && finish > begin {
            let start: u64 = begin.wrapping_sub(base);
            let end: u64 = finish.wrapping_sub(base);
            assert(start == relative(begin, base));
            assert(end == relative(finish, base));
            let first: usize = first_from(code, start);
            let last: usize = first_from(code, end);
            if first < last {
                proof {
                    assert(views[first as int].rva == code@[first as int].rva);
                    assert(has_symbol(views, start, end));
                }
                match linkage(entries, subprogram.at, 0) {
                    Ok(name) => {
                        push_aliases(code, source, &name, start, end, first, last, out);
                    },
                    Err(e) => {
                        proof {
                            lemma_ranges_error(
                                before,
                                views,
                                entries@,
                                base,
                                source@,
                                subprogram.at,
                                ranges@,
                                i + 1,
                                ranges@.len() as int,
                            );
                        }
                        return Err(e);
                    },
                }
            } else {
                proof {
                    assert forall|k: int| 0 <= k < views.len() implies !(start <= (
                    #[trigger] views[k]).rva < end) by {
                        assert(views[k].rva == code@[k].rva);
                    }
                }
            }
        }
        i = i + 1;
    }
    Ok(())
}

proof fn lemma_subprograms_error(
    before: Seq<SymbolModel>,
    code: Seq<CodeView>,
    entries: Map<u64, EntryFact>,
    base: u64,
    source: Seq<char>,
    subprograms: Seq<Subprogram>,
    n: int,
    m: int,
)
    requires
        0 <= n <= m,
        with_subprograms(before, code, entries, base, source, subprograms, n) is Err,
    ensures
        with_subprograms(before, code, entries, base, source, subprograms, m) == with_subprograms(
            before,
            code,
            entries,
            base,
            source,
            subprograms,
            n,
        ),
    decreases m,
{
    if n < m {
        lemma_subprograms_error(before, code, entries, base, source, subprograms, n, m - 1);
    }
}

/// Add the aliases of a unit whose source is in scope.
fn push_unit(
    code: &[CodeSymbol],
    entries: &HashMap<u64, EntryFact>,
    base: u64,
    source: &String,
    subprograms: &[Subprogram],
    out: &mut Vec<ManifestSymbol>,
) -> (r: Result<(), DwarfError>)
    requires
        by_address(code_views(code@)),
    ensures
        ({
            let wanted = with_subprograms(
                symbol_models(old(out)@),
                code_views(code@),
                entries@,
                base,
                source@,
                subprograms@,
                subprograms@.len() as int,
            );
            match r {
                Ok(_) => wanted == Ok::<Seq<SymbolModel>, DwarfError>(symbol_models(final(out)@)),
                Err(e) => wanted == Err::<Seq<SymbolModel>, DwarfError>(e),
            }
        }),
{
    let ghost views = code_views(code@);
    let ghost before = symbol_models(out@);
    let mut i: usize = 0;
    while i < subprograms.len()
        invariant
            i <= subprograms@.len(),
            views == code_views(code@),
            by_address(views),
            before == symbol_models(old(out)@),
            with_subprograms(
                before,
                views,
                entries@,
                base,
                source@,
                subprograms@,
                i as int,
            ) == Ok::<Seq<SymbolModel>, DwarfError>(symbol_models(out@)),
        decreases subprograms@.len() - i,
    {
        match push_subprogram(code, entries, base, source, &subprograms[i], out) {
            Ok(_) => {},
            Err(e) => {
                proof {
                    lemma_subprograms_error(
                        before,
                        views,
                        entries@,
                        base,
                        source@,
                        subprograms@,
                        i + 1,
                        subprograms@.len() as int,
                    );
                }
                return Err(e);
            },
        }
        i = i + 1;
    }
    Ok(())
}

proof fn lemma_units_error(
    code: Seq<CodeView>,
    entries: Map<u64, EntryFact>,
    base: u64,
    root: PathView,
    units: Seq<UnitCode>,
    n: int,
    m: int,
)
    requires
        0 <= n <= m,
        with_units(code, entries, base, root, units, n) is Err,
    ensures
        with_units(code, entries, base, root, units, m) == with_units(
            code,
            entries,
            base,
            root,
            units,
            n,
        ),
    decreases m,
{
    if n < m {
        lemma_units_error(code, entries, base, root, units, n, m - 1);
    }
}

/// The aliases of the functions of a linked ELF binary, whose code symbols go by their addresses.
pub fn elf_aliases(
    units: &[UnitCode],
    entries: &HashMap<u64, EntryFact>,
    root: &SourceRoot,
    code: &[CodeSymbol],
    base: u64,
) -> (r: Result<Vec<ManifestSymbol>, DwarfError>)
    requires
        by_address(code_views(code@)),
    ensures
        match r {
            Ok(aliases) => aliases_of(code_views(code@), entries@, base, root@, units@) == Ok::<
                Seq<SymbolModel>,
                DwarfError,
            >(symbol_models(aliases@)),
            Err(e) => aliases_of(code_views(code@), entries@, base, root@, units@) == Err::<
                Seq<SymbolModel>,
                DwarfError,
            >(e),
        },
{
    if units.len() == 0 {
        return Err(DwarfError::NoDebugInfo);
    }
    let ghost views = code_views(code@);
    let mut out: Vec<ManifestSymbol> = Vec::new();
    let mut i: usize = 0;
    assert(symbol_models(out@) =~= Seq::empty());
    while i < units.len()
        invariant
            i <= units@.len(),
            units@.len() > 0,
            views == code_views(code@),
            by_address(views),
            with_units(views, entries@, base, root@, units@, i as int) == Ok::<
                Seq<SymbolModel>,
                DwarfError,
            >(symbol_models(out@)),
        decreases units@.len() - i,
    {
        let pushed: Result<(), DwarfError> = match source(&units[i].unit, root) {
            Err(e) => Err(e),
            Ok(None) => Ok(()),
            Ok(Some(path)) => push_unit(
                code,
                entries,
                base,
                &path,
                &units[i].subprograms,
                &mut out,
            ),
        };
        match pushed {
            Ok(_) => {},
            Err(e) => {
                proof {
                    lemma_units_error(
                        views,
                        entries@,
                        base,
                        root@,
                        units@,
                        i + 1,
                        units@.len() as int,
                    );
                }
                return Err(e);
            },
        }
        i = i + 1;
    }
    Ok(out)
}

} // verus!
