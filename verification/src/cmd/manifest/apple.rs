//! Aliases of the functions of Mach-O binaries, by the objects of their debug map.

use vstd::prelude::*;
use vstd::utf8::*;
use crate::bytes::{byte_rows, copy_bytes, same_bytes};
use crate::order::{ascending, find_sorted, same_keys, sorted_distinct};
use crate::text::{same_chars, to_chars, utf8_string};
use crate::util::manifest::format::{symbol_models, ManifestSymbol, SymbolModel};
use crate::util::objfile::{
    archive_is_thin, archive_named_members, file_arch_name, file_base, file_object_map, file_symbol_names,
    file_symbols, map_views, member_views, name_views, read_arch_name, read_base, read_is_thin,
    read_named_members, read_object_map, read_symbol_names, read_symbols, symbol_views,
    ArchiveFault, MapFact, MapView, SymbolClass, SymbolFact, SymbolView,
};
use super::aliases::{alias_of, binary_alias, binary_name, FunctionRecord};
use super::binary::{lookup_string, lookup_text, relative};
use super::dwarf::{
    by_address, code_views, first_from, object_source, owner_of, CodeSymbol, CodeView, DwarfError,
    UnitFact,
};
use super::path::{PathView, SourceRoot};

verus! {

/// Why the aliases of a binary cannot be told. A number is a place among what was given.
#[derive(Clone, Copy, Debug, PartialEq, Eq, Structural)]
pub enum AppleError {
    /// The binary does not parse.
    BadBinary,
    /// The binary has no object debug map.
    NoObjectMap,
    /// The path of an object is not UTF-8.
    BadPath(usize),
    /// An object does not parse.
    BadObject(usize),
    /// An object is for another architecture.
    Architecture(usize),
    /// The source file of an object cannot be told.
    Source(usize, DwarfError),
    /// The name of a mapped function is not UTF-8.
    BadName(usize),
    BadArchive,
    /// A member of the archive cannot be read.
    BadMember,
    /// Thin archives are not supported.
    ThinArchive,
    /// A mapped member is missing from the archive.
    MissingMember(usize),
}

/// The first object of a debug map whose path is not UTF-8, from `from` on.
pub open spec fn bad_path(entries: Seq<MapView>, from: int) -> Option<int>
    decreases entries.len() - from,
{
    if from >= entries.len() {
        None
    } else if !valid_utf8(entries[from].path) {
        Some(from)
    } else {
        bad_path(entries, from + 1)
    }
}

/// The debug map of a binary.
pub open spec fn mapped_functions(data: Seq<u8>) -> Result<Seq<MapView>, AppleError> {
    match file_object_map(data) {
        None => Err(AppleError::NoObjectMap),
        Some((objects, entries)) => if objects == 0 {
            Err(AppleError::NoObjectMap)
        } else {
            match bad_path(entries, 0) {
                Some(i) => Err(AppleError::BadPath(i as usize)),
                None => Ok(entries),
            }
        },
    }
}

/// Read the debug map of a binary. Every entry is kept, repeated archive members too.
pub fn read_map(data: &[u8]) -> (r: Result<Vec<MapFact>, AppleError>)
    ensures
        match r {
            Ok(entries) => mapped_functions(data@) == Ok::<Seq<MapView>, AppleError>(
                map_views(entries@),
            ),
            Err(e) => mapped_functions(data@) == Err::<Seq<MapView>, AppleError>(e),
        },
{
    let (objects, entries) = match read_object_map(data) {
        Some(map) => map,
        None => return Err(AppleError::NoObjectMap),
    };
    if objects == 0 {
        return Err(AppleError::NoObjectMap);
    }
    let ghost views = map_views(entries@);
    let mut i: usize = 0;
    while i < entries.len()
        invariant
            i <= entries@.len(),
            objects != 0,
            views == map_views(entries@),
            file_object_map(data@) == Some((objects, views)),
            bad_path(views, 0) == bad_path(views, i as int),
        decreases entries@.len() - i,
    {
        assert(views[i as int] == entries@[i as int]@);
        if utf8_string(copy_bytes(&entries[i].path)).is_none() {
            return Err(AppleError::BadPath(i));
        }
        i = i + 1;
    }
    Ok(entries)
}

/// The place of a name among those that are wanted.
pub open spec fn wanted_at(wanted: Seq<Seq<u8>>, name: Seq<u8>) -> Option<int> {
    wanted.index_of_first(name)
}

/// The members of an archive from `from` on that are wanted: the place of the wanted name, and the
/// contents.
pub open spec fn wanted_members(
    members: Seq<(Seq<u8>, Option<Seq<u8>>)>,
    wanted: Seq<Seq<u8>>,
    n: int,
) -> Result<Seq<(int, Seq<u8>)>, AppleError>
    decreases n,
{
    if n <= 0 {
        Ok(Seq::empty())
    } else {
        match wanted_members(members, wanted, n - 1) {
            Err(e) => Err(e),
            Ok(so_far) => match (wanted_at(wanted, members[n - 1].0), members[n - 1].1) {
                (None, _) => Ok(so_far),
                (Some(_), None) => Err(AppleError::BadMember),
                (Some(i), Some(contents)) => Ok(so_far.push((i, contents))),
            },
        }
    }
}

/// The names of archive members.
pub open spec fn member_names(members: Seq<(Seq<u8>, Option<Seq<u8>>)>) -> Seq<Seq<u8>> {
    Seq::new(members.len(), |i: int| members[i].0)
}

/// The first wanted name that no member has, from `from` on.
pub open spec fn missing_member(names: Seq<Seq<u8>>, wanted: Seq<Seq<u8>>, from: int) -> Option<int>
    decreases wanted.len() - from,
{
    if from >= wanted.len() {
        None
    } else if !names.contains(wanted[from]) {
        Some(from)
    } else {
        missing_member(names, wanted, from + 1)
    }
}

/// The wanted members of an archive, in its order. All of them have to be there.
pub open spec fn selected_members(data: Seq<u8>, wanted: Seq<Seq<u8>>) -> Result<
    Seq<(int, Seq<u8>)>,
    AppleError,
> {
    match (archive_is_thin(data), archive_named_members(data)) {
        (None, _) => Err(AppleError::BadArchive),
        (Some(true), _) => Err(AppleError::ThinArchive),
        (Some(false), Err(ArchiveFault::Parse)) => Err(AppleError::BadArchive),
        (Some(false), Err(ArchiveFault::Member)) => Err(AppleError::BadMember),
        (Some(false), Ok(members)) => match wanted_members(
            members,
            wanted,
            members.len() as int,
        ) {
            Err(e) => Err(e),
            Ok(found) => match missing_member(member_names(members), wanted, 0) {
                Some(i) => Err(AppleError::MissingMember(i as usize)),
                None => Ok(found),
            },
        },
    }
}

/// Selected members as plain values.
pub open spec fn selection_views(selected: Seq<(usize, Vec<u8>)>) -> Seq<(int, Seq<u8>)> {
    Seq::new(selected.len(), |i: int| (selected[i].0 as int, selected[i].1@))
}

/// Find a name.
fn find_name(names: &[Vec<u8>], name: &[u8]) -> (r: Option<usize>)
    ensures
        match r {
            Some(i) => wanted_at(byte_rows(names@), name@) == Some(i as int),
            None => wanted_at(byte_rows(names@), name@) is None && !byte_rows(names@).contains(
                name@,
            ),
        },
{
    let ghost all = byte_rows(names@);
    proof {
        all.index_of_first_ensures(name@);
    }
    let mut i: usize = 0;
    while i < names.len()
        invariant
            i <= names@.len(),
            all == byte_rows(names@),
            forall|k: int| 0 <= k < i ==> all[k] != name@,
        decreases names@.len() - i,
    {
        assert(all[i as int] == names@[i as int]@);
        if same_bytes(&names[i], name) {
            proof {
                all.index_of_first_ensures(name@);
                assert(all.contains(name@));
            }
            return Some(i);
        }
        i = i + 1;
    }
    proof {
        all.index_of_first_ensures(name@);
    }
    None
}

proof fn lemma_wanted_error(
    members: Seq<(Seq<u8>, Option<Seq<u8>>)>,
    wanted: Seq<Seq<u8>>,
    n: int,
    m: int,
)
    requires
        0 <= n <= m,
        wanted_members(members, wanted, n) is Err,
    ensures
        wanted_members(members, wanted, m) == wanted_members(members, wanted, n),
    decreases m,
{
    if n < m {
        lemma_wanted_error(members, wanted, n, m - 1);
    }
}

/// Select the wanted members of an archive.
pub fn select_members(data: &[u8], wanted: &[Vec<u8>]) -> (r: Result<
    Vec<(usize, Vec<u8>)>,
    AppleError,
>)
    ensures
        match r {
            Ok(found) => selected_members(data@, byte_rows(wanted@)) == Ok::<
                Seq<(int, Seq<u8>)>,
                AppleError,
            >(selection_views(found@)),
            Err(e) => selected_members(data@, byte_rows(wanted@)) == Err::<
                Seq<(int, Seq<u8>)>,
                AppleError,
            >(e),
        },
{
    match read_is_thin(data) {
        None => return Err(AppleError::BadArchive),
        Some(thin) => if thin {
            return Err(AppleError::ThinArchive);
        },
    }
    let members: Vec<(Vec<u8>, Option<Vec<u8>>)> = match read_named_members(data) {
        Ok(members) => members,
        Err(ArchiveFault::Parse) => return Err(AppleError::BadArchive),
        Err(ArchiveFault::Member) => return Err(AppleError::BadMember),
    };
    let ghost views = member_views(members@);
    let ghost rows = byte_rows(wanted@);
    let mut found: Vec<(usize, Vec<u8>)> = Vec::new();
    let mut names: Vec<Vec<u8>> = Vec::new();
    let mut i: usize = 0;
    assert(selection_views(found@) =~= Seq::empty());
    assert(byte_rows(names@) =~= member_names(views).subrange(0, 0));
    while i < members.len()
        invariant
            i <= members@.len(),
            views == member_views(members@),
            rows == byte_rows(wanted@),
            archive_is_thin(data@) == Some(false),
            archive_named_members(data@) == Ok::<Seq<(Seq<u8>, Option<Seq<u8>>)>, ArchiveFault>(
                views,
            ),
            byte_rows(names@) == member_names(views).subrange(0, i as int),
            wanted_members(views, rows, i as int) == Ok::<Seq<(int, Seq<u8>)>, AppleError>(
                selection_views(found@),
            ),
        decreases members@.len() - i,
    {
        let ghost so_far = selection_views(found@);
        let ghost named = byte_rows(names@);
        assert(views[i as int].0 == members@[i as int].0@);
        names.push(copy_bytes(&members[i].0));
        assert(byte_rows(names@) =~= named.push(members@[i as int].0@));
        assert(byte_rows(names@) =~= member_names(views).subrange(0, i + 1));
        match find_name(wanted, &members[i].0) {
            Some(k) => match &members[i].1 {
                Some(contents) => {
                    found.push((k, copy_bytes(contents)));
                    assert(selection_views(found@) =~= so_far.push((k as int, contents@)));
                },
                None => {
                    proof {
                        lemma_wanted_error(views, rows, i + 1, views.len() as int);
                    }
                    return Err(AppleError::BadMember);
                },
            },
            None => {},
        }
        i = i + 1;
    }
    assert(byte_rows(names@) =~= member_names(views));
    let mut k: usize = 0;
    while k < wanted.len()
        invariant
            k <= wanted@.len(),
            rows == byte_rows(wanted@),
            archive_is_thin(data@) == Some(false),
            archive_named_members(data@) == Ok::<Seq<(Seq<u8>, Option<Seq<u8>>)>, ArchiveFault>(
                views,
            ),
            byte_rows(names@) == member_names(views),
            wanted_members(views, rows, views.len() as int) == Ok::<
                Seq<(int, Seq<u8>)>,
                AppleError,
            >(selection_views(found@)),
            missing_member(member_names(views), rows, 0) == missing_member(
                member_names(views),
                rows,
                k as int,
            ),
        decreases wanted@.len() - k,
    {
        assert(rows[k as int] == wanted@[k as int]@);
        match find_name(&names, &wanted[k]) {
            Some(at) => {
                proof {
                    let all = byte_rows(names@);
                    all.index_of_first_ensures(rows[k as int]);
                    assert(all.contains(rows[k as int]));
                }
            },
            None => {
                return Err(AppleError::MissingMember(k));
            },
        }
        k = k + 1;
    }
    Ok(found)
}

/// The names of the functions among the first `n` symbols that an object defines.
pub open spec fn defined_functions(
    symbols: Seq<SymbolView>,
    names: Seq<Option<Seq<u8>>>,
    n: int,
) -> Seq<Seq<u8>>
    decreases n,
{
    if n <= 0 {
        Seq::empty()
    } else {
        let so_far = defined_functions(symbols, names, n - 1);
        if n <= names.len() && symbols[n - 1].definition && symbols[n - 1].kind
            == SymbolClass::Text {
            match names[n - 1] {
                Some(name) => so_far.push(name),
                None => so_far,
            }
        } else {
            so_far
        }
    }
}

/// Collect the names of the functions that an object defines, each once and in order.
fn collect_functions(symbols: &[SymbolFact], names: &[Option<Vec<u8>>]) -> (r: Vec<Vec<u8>>)
    ensures
        ascending::<Vec<u8>>(byte_rows(r@)),
        same_keys(
            byte_rows(r@),
            defined_functions(symbol_views(symbols@), name_views(names@), symbols@.len() as int),
        ),
{
    let ghost views = symbol_views(symbols@);
    let ghost texts = name_views(names@);
    let mut out: Vec<Vec<u8>> = Vec::new();
    let mut i: usize = 0;
    assert(byte_rows(out@) =~= Seq::empty());
    while i < symbols.len()
        invariant
            i <= symbols@.len(),
            views == symbol_views(symbols@),
            texts == name_views(names@),
            byte_rows(out@) == defined_functions(views, texts, i as int),
        decreases symbols@.len() - i,
    {
        let ghost before = byte_rows(out@);
        assert(views[i as int] == symbols@[i as int]@);
        if i < names.len() && symbols[i].definition && symbols[i].kind == SymbolClass::Text {
            match &names[i] {
                Some(name) => {
                    out.push(copy_bytes(name));
                    assert(byte_rows(out@) =~= before.push(name@));
                },
                None => {},
            }
        }
        i = i + 1;
    }
    sorted_distinct(&out)
}

/// A function that a debug map assigns to an object.
pub struct MapEntry {
    pub name: Vec<u8>,
    pub address: u64,
}

/// An object of a debug map, with its DWARF units and the functions that are mapped to it.
pub struct MappedObject {
    pub data: Vec<u8>,
    pub units: Vec<UnitFact>,
    pub mapped: Vec<MapEntry>,
}

/// The flags and the kind of the last of the first `n` symbols with a name at an address.
pub open spec fn linked_symbol(code: Seq<CodeView>, name: Seq<char>, rva: u64, n: int) -> Option<
    CodeView,
>
    decreases n,
{
    if n <= 0 {
        None
    } else if code[n - 1].rva == rva && code[n - 1].name == name {
        Some(code[n - 1])
    } else {
        linked_symbol(code, name, rva, n - 1)
    }
}

proof fn lemma_linked_outside(code: Seq<CodeView>, name: Seq<char>, rva: u64, n: int, m: int)
    requires
        0 <= n <= m <= code.len(),
        forall|i: int| n <= i < m ==> (#[trigger] code[i]).rva != rva,
    ensures
        linked_symbol(code, name, rva, m) == linked_symbol(code, name, rva, n),
    decreases m - n,
{
    if n < m {
        lemma_linked_outside(code, name, rva, n, m - 1);
        assert(code[m - 1].rva != rva);
    }
}

/// Find the last symbol with a name at an address.
fn find_linked(code: &[CodeSymbol], name: &str, rva: u64) -> (r: Option<usize>)
    requires
        by_address(code_views(code@)),
    ensures
        match r {
            Some(i) => i < code@.len() && linked_symbol(
                code_views(code@),
                name@,
                rva,
                code@.len() as int,
            ) == Some(code@[i as int]@),
            None => linked_symbol(code_views(code@), name@, rva, code@.len() as int) is None,
        },
{
    let ghost views = code_views(code@);
    let wanted: Vec<char> = to_chars(name);
    let first: usize = first_from(code, rva);
    proof {
        assert forall|k: int| 0 <= k < first implies (#[trigger] views[k]).rva != rva by {
            assert(views[k].rva == code@[k].rva);
        }
        lemma_linked_outside(views, name@, rva, 0, first as int);
    }
    let mut found: Option<usize> = None;
    let mut i: usize = first;
    while i < code.len() && code[i].rva == rva
        invariant
            first <= i <= code@.len(),
            views == code_views(code@),
            wanted@ == name@,
            match found {
                Some(k) => k < code@.len() && linked_symbol(views, name@, rva, i as int) == Some(
                    code@[k as int]@,
                ),
                None => linked_symbol(views, name@, rva, i as int) is None,
            },
        decreases code@.len() - i,
    {
        assert(views[i as int] == code@[i as int]@);
        if same_chars(&to_chars(code[i].name.as_str()), &wanted) {
            found = Some(i);
        }
        i = i + 1;
    }
    proof {
        assert forall|k: int| i <= k < views.len() implies (#[trigger] views[k]).rva != rva by {
            assert(views[i as int].rva <= views[k].rva);
            assert(views[i as int].rva == code@[i as int].rva);
            assert(code@[i as int].rva >= rva);
        }
        lemma_linked_outside(views, name@, rva, i as int, code@.len() as int);
    }
    found
}

/// The alias of a mapped function that the object defines and the binary has linked.
pub open spec fn mapped_alias(
    entry: MapEntry,
    functions: Seq<Seq<u8>>,
    source: Seq<char>,
    code: Seq<CodeView>,
    base: u64,
    at: int,
) -> Result<Option<SymbolModel>, AppleError> {
    if !functions.contains(entry.name@) {
        Ok(None)
    } else if !valid_utf8(entry.name@) {
        Err(AppleError::BadName(at as usize))
    } else {
        let name = lookup_text(decode_utf8(entry.name@), true);
        let rva = relative(entry.address, base);
        match linked_symbol(code, name, rva, code.len() as int) {
            None => Ok(None),
            Some(symbol) => match binary_alias(name, symbol.ordinary) {
                None => Ok(None),
                Some(alias) => Ok(alias_of(source, alias, rva, symbol.flags)),
            },
        }
    }
}

/// The aliases with those of the first `n` functions that are mapped to the object at a place.
pub open spec fn with_mapped(
    before: Seq<SymbolModel>,
    mapped: Seq<MapEntry>,
    functions: Seq<Seq<u8>>,
    source: Seq<char>,
    code: Seq<CodeView>,
    base: u64,
    at: int,
    n: int,
) -> Result<Seq<SymbolModel>, AppleError>
    decreases n,
{
    if n <= 0 {
        Ok(before)
    } else {
        match with_mapped(before, mapped, functions, source, code, base, at, n - 1) {
            Err(e) => Err(e),
            Ok(so_far) => match mapped_alias(
                mapped[n - 1],
                functions,
                source,
                code,
                base,
                at,
            ) {
                Err(e) => Err(e),
                Ok(None) => Ok(so_far),
                Ok(Some(alias)) => Ok(so_far.push(alias)),
            },
        }
    }
}

/// The aliases with those of one more object of a debug map.
pub open spec fn with_object(
    before: Seq<SymbolModel>,
    object: MappedObject,
    arch: Seq<char>,
    root: PathView,
    code: Seq<CodeView>,
    base: u64,
    at: int,
) -> Result<Seq<SymbolModel>, AppleError> {
    match (
        file_arch_name(object.data@),
        file_symbols(object.data@),
        file_symbol_names(object.data@),
    ) {
        (Some(own), Some(symbols), Some(names)) => if own != arch {
            Err(AppleError::Architecture(at as usize))
        } else {
            match owner_of(object.units@, root) {
                Err(e) => Err(AppleError::Source(at as usize, e)),
                Ok(None) => Ok(before),
                Ok(Some(source)) => with_mapped(
                    before,
                    object.mapped@,
                    defined_functions(symbols, names, symbols.len() as int),
                    source,
                    code,
                    base,
                    at,
                    object.mapped@.len() as int,
                ),
            }
        },
        _ => Err(AppleError::BadObject(at as usize)),
    }
}

/// The aliases of the first `n` objects of a debug map.
pub open spec fn with_objects(
    objects: Seq<MappedObject>,
    arch: Seq<char>,
    root: PathView,
    code: Seq<CodeView>,
    base: u64,
    n: int,
) -> Result<Seq<SymbolModel>, AppleError>
    decreases n,
{
    if n <= 0 {
        Ok(Seq::empty())
    } else {
        match with_objects(objects, arch, root, code, base, n - 1) {
            Err(e) => Err(e),
            Ok(so_far) => with_object(so_far, objects[n - 1], arch, root, code, base, n - 1),
        }
    }
}

proof fn lemma_mapped_error(
    before: Seq<SymbolModel>,
    mapped: Seq<MapEntry>,
    functions: Seq<Seq<u8>>,
    source: Seq<char>,
    code: Seq<CodeView>,
    base: u64,
    at: int,
    n: int,
    m: int,
)
    requires
        0 <= n <= m,
        with_mapped(before, mapped, functions, source, code, base, at, n) is Err,
    ensures
        with_mapped(before, mapped, functions, source, code, base, at, m) == with_mapped(
            before,
            mapped,
            functions,
            source,
            code,
            base,
            at,
            n,
        ),
    decreases m,
{
    if n < m {
        lemma_mapped_error(before, mapped, functions, source, code, base, at, n, m - 1);
    }
}

/// Make the alias of a mapped function.
fn make_alias(
    entry: &MapEntry,
    functions: &[Vec<u8>],
    source: &String,
    code: &[CodeSymbol],
    base: u64,
    at: usize,
) -> (r: Result<Option<ManifestSymbol>, AppleError>)
    requires
        by_address(code_views(code@)),
        ascending::<Vec<u8>>(byte_rows(functions@)),
    ensures
        ({
            let wanted = mapped_alias(
                *entry,
                byte_rows(functions@),
                source@,
                code_views(code@),
                base,
                at as int,
            );
            match r {
                Ok(Some(alias)) => wanted == Ok::<Option<SymbolModel>, AppleError>(Some(alias@)),
                Ok(None) => wanted == Ok::<Option<SymbolModel>, AppleError>(None),
                Err(e) => wanted == Err::<Option<SymbolModel>, AppleError>(e),
            }
        }),
{
    broadcast use encode_utf8_decode_utf8;

    if !find_sorted(functions, &entry.name) {
        return Ok(None);
    }
    let text: String = match utf8_string(copy_bytes(&entry.name)) {
        Some(text) => text,
        None => return Err(AppleError::BadName(at)),
    };
    let name: String = lookup_string(text.as_str(), true);
    let rva: u64 = entry.address.wrapping_sub(base);
    assert(rva == relative(entry.address, base));
    let linked: &CodeSymbol = match find_linked(code, name.as_str(), rva) {
        Some(i) => &code[i],
        None => return Ok(None),
    };
    match binary_name(name.as_str(), linked.ordinary) {
        Some(alias) => {
            let record: FunctionRecord = FunctionRecord {
                source: source.clone(),
                name: alias,
                rva,
                flags: linked.flags,
                provenance: source.clone(),
            };
            Ok(record.into_alias())
        },
        None => Ok(None),
    }
}

/// Which functions an object defines matters, not their order or how often they occur.
proof fn lemma_same_functions(
    before: Seq<SymbolModel>,
    mapped: Seq<MapEntry>,
    a: Seq<Seq<u8>>,
    b: Seq<Seq<u8>>,
    source: Seq<char>,
    code: Seq<CodeView>,
    base: u64,
    at: int,
    n: int,
)
    requires
        same_keys(a, b),
    ensures
        with_mapped(before, mapped, a, source, code, base, at, n) == with_mapped(
            before,
            mapped,
            b,
            source,
            code,
            base,
            at,
            n,
        ),
    decreases n,
{
    if n > 0 {
        lemma_same_functions(before, mapped, a, b, source, code, base, at, n - 1);
        assert(a.contains(mapped[n - 1].name@) <==> b.contains(mapped[n - 1].name@));
    }
}

/// Add the aliases of the functions that are mapped to an object.
fn push_mapped(
    mapped: &[MapEntry],
    functions: &[Vec<u8>],
    source: &String,
    code: &[CodeSymbol],
    base: u64,
    at: usize,
    out: &mut Vec<ManifestSymbol>,
) -> (r: Result<(), AppleError>)
    requires
        by_address(code_views(code@)),
        ascending::<Vec<u8>>(byte_rows(functions@)),
    ensures
        ({
            let wanted = with_mapped(
                symbol_models(old(out)@),
                mapped@,
                byte_rows(functions@),
                source@,
                code_views(code@),
                base,
                at as int,
                mapped@.len() as int,
            );
            match r {
                Ok(_) => wanted == Ok::<Seq<SymbolModel>, AppleError>(symbol_models(final(out)@)),
                Err(e) => wanted == Err::<Seq<SymbolModel>, AppleError>(e),
            }
        }),
{
    let ghost views = code_views(code@);
    let ghost rows = byte_rows(functions@);
    let ghost before = symbol_models(out@);
    let mut i: usize = 0;
    while i < mapped.len()
        invariant
            i <= mapped@.len(),
            views == code_views(code@),
            rows == byte_rows(functions@),
            by_address(views),
            ascending::<Vec<u8>>(rows),
            before == symbol_models(old(out)@),
            with_mapped(
                before,
                mapped@,
                rows,
                source@,
                views,
                base,
                at as int,
                i as int,
            ) == Ok::<Seq<SymbolModel>, AppleError>(symbol_models(out@)),
        decreases mapped@.len() - i,
    {
        let ghost so_far = symbol_models(out@);
        match make_alias(&mapped[i], functions, source, code, base, at) {
            Ok(Some(alias)) => {
                out.push(alias);
                assert(symbol_models(out@) =~= so_far.push(alias@));
            },
            Ok(None) => {},
            Err(e) => {
                proof {
                    lemma_mapped_error(
                        before,
                        mapped@,
                        rows,
                        source@,
                        views,
                        base,
                        at as int,
                        i + 1,
                        mapped@.len() as int,
                    );
                }
                return Err(e);
            },
        }
        i = i + 1;
    }
    Ok(())
}

/// Add the aliases of an object of a debug map.
fn push_object(
    object: &MappedObject,
    arch: &Vec<char>,
    root: &SourceRoot,
    code: &[CodeSymbol],
    base: u64,
    at: usize,
    out: &mut Vec<ManifestSymbol>,
) -> (r: Result<(), AppleError>)
    requires
        by_address(code_views(code@)),
    ensures
        ({
            let wanted = with_object(
                symbol_models(old(out)@),
                *object,
                arch@,
                root@,
                code_views(code@),
                base,
                at as int,
            );
            match r {
                Ok(_) => wanted == Ok::<Seq<SymbolModel>, AppleError>(symbol_models(final(out)@)),
                Err(e) => wanted == Err::<Seq<SymbolModel>, AppleError>(e),
            }
        }),
{
    let (own, symbols, names) = match (
        read_arch_name(&object.data),
        read_symbols(&object.data),
        read_symbol_names(&object.data),
    ) {
        (Some(own), Some(symbols), Some(names)) => (own, symbols, names),
        _ => return Err(AppleError::BadObject(at)),
    };
    if !same_chars(&to_chars(own.as_str()), arch) {
        return Err(AppleError::Architecture(at));
    }
    let source: String = match object_source(&object.units, root) {
        Err(e) => return Err(AppleError::Source(at, e)),
        Ok(None) => return Ok(()),
        Ok(Some(source)) => source,
    };
    let functions: Vec<Vec<u8>> = collect_functions(&symbols, &names);
    proof {
        lemma_same_functions(
            symbol_models(out@),
            object.mapped@,
            byte_rows(functions@),
            defined_functions(symbol_views(symbols@), name_views(names@), symbols@.len() as int),
            source@,
            code_views(code@),
            base,
            at as int,
            object.mapped@.len() as int,
        );
    }
    push_mapped(&object.mapped, &functions, &source, code, base, at, out)
}

proof fn lemma_objects_error(
    objects: Seq<MappedObject>,
    arch: Seq<char>,
    root: PathView,
    code: Seq<CodeView>,
    base: u64,
    n: int,
    m: int,
)
    requires
        0 <= n <= m,
        with_objects(objects, arch, root, code, base, n) is Err,
    ensures
        with_objects(objects, arch, root, code, base, m) == with_objects(
            objects,
            arch,
            root,
            code,
            base,
            n,
        ),
    decreases m,
{
    if n < m {
        lemma_objects_error(objects, arch, root, code, base, n, m - 1);
    }
}

/// The aliases of the functions of a Mach-O binary, by the objects of its debug map.
pub open spec fn mapped_aliases(
    image: Seq<u8>,
    objects: Seq<MappedObject>,
    root: PathView,
    code: Seq<CodeView>,
) -> Result<Seq<SymbolModel>, AppleError> {
    match (file_arch_name(image), file_base(image)) {
        (Some(arch), Some(base)) => with_objects(
            objects,
            arch,
            root,
            code,
            base,
            objects.len() as int,
        ),
        _ => Err(AppleError::BadBinary),
    }
}

/// Add the aliases of all objects of a debug map.
fn push_objects(
    objects: &[MappedObject],
    arch: &Vec<char>,
    root: &SourceRoot,
    code: &[CodeSymbol],
    base: u64,
) -> (r: Result<Vec<ManifestSymbol>, AppleError>)
    requires
        by_address(code_views(code@)),
    ensures
        ({
            let wanted = with_objects(
                objects@,
                arch@,
                root@,
                code_views(code@),
                base,
                objects@.len() as int,
            );
            match r {
                Ok(found) => wanted == Ok::<Seq<SymbolModel>, AppleError>(symbol_models(found@)),
                Err(e) => wanted == Err::<Seq<SymbolModel>, AppleError>(e),
            }
        }),
{
    let ghost views = code_views(code@);
    let mut out: Vec<ManifestSymbol> = Vec::new();
    let mut i: usize = 0;
    assert(symbol_models(out@) =~= Seq::empty());
    while i < objects.len()
        invariant
            i <= objects@.len(),
            views == code_views(code@),
            by_address(views),
            with_objects(objects@, arch@, root@, views, base, i as int) == Ok::<
                Seq<SymbolModel>,
                AppleError,
            >(symbol_models(out@)),
        decreases objects@.len() - i,
    {
        match push_object(&objects[i], arch, root, code, base, i, &mut out) {
            Ok(_) => {},
            Err(e) => {
                proof {
                    lemma_objects_error(
                        objects@,
                        arch@,
                        root@,
                        views,
                        base,
                        i + 1,
                        objects@.len() as int,
                    );
                }
                return Err(e);
            },
        }
        i = i + 1;
    }
    Ok(out)
}

/// Find the aliases of the functions of a Mach-O binary, by the objects of its debug map. Its code
/// symbols go by their addresses.
pub fn aliases(
    image: &[u8],
    objects: &[MappedObject],
    root: &SourceRoot,
    code: &[CodeSymbol],
) -> (r: Result<Vec<ManifestSymbol>, AppleError>)
    requires
        by_address(code_views(code@)),
    ensures
        ({
            let wanted = mapped_aliases(image@, objects@, root@, code_views(code@));
            match r {
                Ok(found) => wanted == Ok::<Seq<SymbolModel>, AppleError>(symbol_models(found@)),
                Err(e) => wanted == Err::<Seq<SymbolModel>, AppleError>(e),
            }
        }),
{
    match (read_arch_name(image), read_base(image)) {
        (Some(arch), Some(base)) => push_objects(
            objects,
            &to_chars(arch.as_str()),
            root,
            code,
            base,
        ),
        _ => Err(AppleError::BadBinary),
    }
}

} // verus!
