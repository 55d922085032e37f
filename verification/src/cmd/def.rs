//! Curated `.def` of exportable symbols from built COFF objects.

pub mod forward;
pub mod laws;
pub mod listing;
pub mod mixed;
pub mod render;

use vstd::prelude::*;
use vstd::utf8::*;
use crate::bytes::{
    begins, begins_any, byte_rows, bytes_begin, bytes_begin_any, bytes_hold, bytes_hold_any,
    copy_bytes, holds, holds_any, same_bytes,
};
use crate::order::{
    ascending, bytes_less, bytes_lt, distinct_order, is_first, keys, keys_at,
    lemma_bytes_lt_irreflexive, lemma_bytes_lt_total, lemma_bytes_lt_transitive,
    lemma_sorted_form_exists, sorted_form, Ranked,
};
use crate::text::{slash, slashed, string_from_chars, to_chars};
use crate::util::coff::{coff_object, read_coff, CoffObject, CoffSymbol, CoffSymbolView, CoffView};
use crate::util::file::texts;
use crate::util::objfile::{
    archive_members, is_archive, looks_like_archive, read_members, ArchiveFault,
};
use self::forward::{
    forwarder_pairs, forwarders_of, scan_forwarders, sort_forwarders, ForwardDll, Forwarder,
};
use self::mixed::{find_mixed, mixed_names};
use self::render::{is_def_of, render_def};

verus! {

/// What to generate.
#[derive(PartialEq, Eq, Debug)]
pub struct Args {
    /// Objects and archives to scan; a response file is prefixed with `@`.
    pub inputs: Vec<String>,
    /// Output `.def` file.
    pub out: String,
    /// Static libraries to scan for C-only (unmangled) exports.
    pub sdk_lib: Vec<String>,
    /// PE DLLs whose named exports should be re-exported as forwarders.
    pub forward_dll: Vec<String>,
    /// Only forward DLL exports that begin with one of these.
    pub forward_sym_prefix: Vec<String>,
    /// Only scan objects whose path contains one of these.
    pub includes: Vec<String>,
    /// Skip objects whose path contains one of these.
    pub excludes: Vec<String>,
    /// Exclude symbols that begin with one of these.
    pub exclude_sym: Vec<String>,
    /// Fail if the export count exceeds this value; 0 disables the check. The PE hard limit is
    /// 65535.
    pub max_exports: usize,
}

/// Why no `.def` can be made; the number is the place of the file among those scanned, or among the
/// forward DLLs.
#[derive(Clone, Copy, Debug, PartialEq, Eq, Structural)]
pub enum DefError {
    /// There is no input object or archive.
    NoInputs,
    /// The object does not parse.
    BadObject(usize),
    /// The archive does not parse.
    BadArchive(usize),
    /// A member of the archive cannot be read.
    BadMember(usize),
    /// The kind of the forward DLL cannot be told.
    ForwardUnknown(usize),
    /// The forward DLL is not a PE image.
    ForwardNotPe(usize),
    /// The forward DLL does not parse.
    ForwardUnparsed(usize),
    /// The forward DLL has no valid module name.
    ForwardNoModule(usize),
    /// The exports of the forward DLL cannot be read.
    ForwardExports(usize),
    /// An export of the forward DLL is not UTF-8.
    ForwardNotUtf8(usize),
    /// An export of the forward DLL has a target already, in another module.
    ForwardConflict(usize),
    /// The forwarder with this place in the order of names is also a local export.
    Conflict(usize),
    /// There are more exports than can be counted.
    TooMany,
}

/// An exported symbol of an object.
pub struct DefSymbol {
    pub name: Vec<u8>,
    /// Whether it is data rather than code.
    pub data: bool,
}

/// The symbols as plain values.
pub open spec fn symbol_pairs(symbols: Seq<DefSymbol>) -> Seq<(Seq<u8>, bool)> {
    Seq::new(symbols.len(), |i: int| (symbols[i].name@, symbols[i].data))
}

/// The names of named things.
pub open spec fn first_parts<V>(pairs: Seq<(Seq<u8>, V)>) -> Seq<Seq<u8>> {
    Seq::new(pairs.len(), |i: int| pairs[i].0)
}

/// Compiler and runtime symbols that are never part of the exported ABI, even when not COMDAT.
pub open spec fn is_skipped(name: Seq<u8>) -> bool {
    // RTTI descriptors: MSVC compares by name string across images
    ||| begins(name, encode_utf8("??_R"@))
    // string literals
    ||| begins(name, encode_utf8("??_C@"@))
    // dynamic initializer and atexit thunks
    ||| begins(name, encode_utf8("??__E"@))
    ||| begins(name, encode_utf8("??__F"@))
    // float constants
    ||| begins(name, encode_utf8("__real@"@))
    ||| begins(name, encode_utf8("__xmm@"@))
    ||| begins(name, encode_utf8("__ymm@"@))
    // EH catchable and throw info
    ||| begins(name, encode_utf8("_CT??"@))
    ||| begins(name, encode_utf8("_TI"@))
    // import pointers never originate here
    ||| begins(name, encode_utf8("__imp_"@))
    // pdata and xdata labels
    ||| begins(name, encode_utf8("$"@))
    // section-name-like symbols
    ||| begins(name, encode_utf8("."@))
    // @feat.00, @comp.id
    ||| begins(name, encode_utf8("@"@))
    ||| holds(name, encode_utf8("?$TSS"@))
    ||| holds(name, encode_utf8("@std@@"@))
    ||| name == encode_utf8("main"@)
    ||| name == encode_utf8("SDL_main"@)
    ||| name == encode_utf8("WinMain"@)
    ||| name == encode_utf8("wWinMain"@)
    ||| name == encode_utf8("DllMain"@)
}

/// Whether the symbol is never part of the exported ABI.
pub fn is_skip_symbol(name: &[u8]) -> (r: bool)
    ensures
        r == is_skipped(name@),
{
    bytes_begin(name, "??_R".as_bytes()) || bytes_begin(name, "??_C@".as_bytes()) || bytes_begin(
        name,
        "??__E".as_bytes(),
    ) || bytes_begin(name, "??__F".as_bytes()) || bytes_begin(name, "__real@".as_bytes())
        || bytes_begin(name, "__xmm@".as_bytes()) || bytes_begin(name, "__ymm@".as_bytes())
        || bytes_begin(name, "_CT??".as_bytes()) || bytes_begin(name, "_TI".as_bytes())
        || bytes_begin(name, "__imp_".as_bytes()) || bytes_begin(name, "$".as_bytes())
        || bytes_begin(name, ".".as_bytes()) || bytes_begin(name, "@".as_bytes()) || bytes_hold(
        name,
        "?$TSS".as_bytes(),
    ) || bytes_hold(name, "@std@@".as_bytes()) || same_bytes(name, "main".as_bytes())
        || same_bytes(name, "SDL_main".as_bytes()) || same_bytes(name, "WinMain".as_bytes())
        || same_bytes(name, "wWinMain".as_bytes()) || same_bytes(name, "DllMain".as_bytes())
}

/// COMDAT sections whose members must not be exported: selectany duplicates (inline functions,
/// templates, vtables) exist in every image. NoDuplicates COMDATs (`/Gy` or `-ffunction-sections`
/// style) are unique definitions and stay exportable.
pub open spec fn is_excluded_section(object: CoffView, section: int) -> bool {
    section < object.code.len() + 2 && exists|c: int|
        0 <= c < object.comdats.len() && !(#[trigger] object.comdats[c]).0
            && object.comdats[c].1.contains(section as usize)
}

/// For each section number, whether its members must not be exported.
pub fn comdat_excluded_sections(object: &CoffObject) -> (r: Vec<bool>)
    requires
        object.code@.len() + 2 <= usize::MAX,
    ensures
        r@.len() == object.code@.len() + 2,
        forall|s: int| 0 <= s < r@.len() ==> #[trigger] r@[s] == is_excluded_section(object@, s),
{
    let ghost view = object@;
    let count: usize = object.code.len() + 2;
    let mut excluded: Vec<bool> = Vec::new();
    let mut i: usize = 0;
    while i < count
        invariant
            i <= count,
            excluded@.len() == i,
            forall|s: int| 0 <= s < i ==> !#[trigger] excluded@[s],
        decreases count - i,
    {
        excluded.push(false);
        i = i + 1;
    }
    let mut c: usize = 0;
    while c < object.comdats.len()
        invariant
            c <= object.comdats@.len(),
            view == object@,
            count == object.code@.len() + 2,
            excluded@.len() == count,
            forall|s: int|
                0 <= s < count ==> #[trigger] excluded@[s] == (exists|d: int|
                    0 <= d < c && !(#[trigger] view.comdats[d]).0 && view.comdats[d].1.contains(
                        s as usize,
                    )),
        decreases object.comdats@.len() - c,
    {
        let sections: &Vec<usize> = &object.comdats[c].sections;
        let ghost before = excluded@;
        assert(view.comdats[c as int] == (object.comdats@[c as int].no_duplicates, sections@));
        if !object.comdats[c].no_duplicates {
            let mut k: usize = 0;
            while k < sections.len()
                invariant
                    k <= sections@.len(),
                    excluded@.len() == count,
                    before.len() == count,
                    forall|s: int|
                        0 <= s < count ==> #[trigger] excluded@[s] == (before[s]
                            || sections@.subrange(0, k as int).contains(s as usize)),
                decreases sections@.len() - k,
            {
                let section: usize = sections[k];
                let ghost so_far = excluded@;
                if section < excluded.len() {
                    excluded.set(section, true);
                }
                proof {
                    let now = sections@.subrange(0, k + 1);
                    let earlier = sections@.subrange(0, k as int);
                    assert(now =~= earlier.push(section));
                    assert forall|s: int| 0 <= s < count implies #[trigger] excluded@[s] == (
                    before[s] || now.contains(s as usize)) by {
                        if earlier.contains(s as usize) {
                            let x = choose|x: int| 0 <= x < earlier.len() && earlier[x] == s as usize;
                            assert(now[x] == s as usize);
                        }
                        if s == section {
                            assert(now[k as int] == s as usize);
                        }
                        if now.contains(s as usize) && s != section {
                            let x = choose|x: int| 0 <= x < now.len() && now[x] == s as usize;
                            assert(earlier[x] == s as usize);
                        }
                    }
                }
                k = k + 1;
            }
            assert(sections@.subrange(0, sections@.len() as int) =~= sections@);
        }
        proof {
            assert forall|s: int| 0 <= s < count implies #[trigger] excluded@[s] == (exists|d: int|
                0 <= d < c + 1 && !(#[trigger] view.comdats[d]).0 && view.comdats[d].1.contains(
                    s as usize,
                )) by {
                if before[s] {
                    let d = choose|d: int|
                        0 <= d < c && !(#[trigger] view.comdats[d]).0
                            && view.comdats[d].1.contains(s as usize);
                    assert(!view.comdats[d].0);
                }
                if !view.comdats[c as int].0 && sections@.contains(s as usize) {
                    assert(view.comdats[c as int].1.contains(s as usize));
                }
            }
        }
        c = c + 1;
    }
    excluded
}

/// What becomes of a symbol.
#[derive(Clone, Copy, Debug, PartialEq, Eq, Structural)]
pub enum Verdict {
    /// It is exported, as data or as code.
    Export {
        data: bool,
    },
    /// It is no global definition in a section, or has no name.
    NotExportable,
    /// It is mangled, in a library that is scanned for C names.
    Mangled,
    /// Its name is one that is skipped.
    Name,
    /// It is in a COMDAT that every image has.
    Comdat,
}

/// What becomes of a symbol of an object.
pub open spec fn verdict(
    object: CoffView,
    s: CoffSymbolView,
    c_only: bool,
    exclude: Seq<String>,
) -> Verdict {
    match (s.section, s.name) {
        (Some(section), Some(name)) => if !s.definition || !s.global || name.len() == 0 {
            Verdict::NotExportable
        } else if c_only && name[0] == 0x3f {
            Verdict::Mangled
        } else if is_skipped(name) || begins_any(name, exclude) {
            Verdict::Name
        } else if is_excluded_section(object, section as int) {
            Verdict::Comdat
        } else {
            Verdict::Export {
                data: !(1 <= section <= object.code.len() && object.code[section - 1]),
            }
        },
        _ => Verdict::NotExportable,
    }
}

/// Decide what becomes of a symbol.
pub fn classify(
    object: &CoffObject,
    excluded: &Vec<bool>,
    s: &CoffSymbol,
    c_only: bool,
    exclude: &[String],
) -> (r: Verdict)
    requires
        excluded@.len() == object.code@.len() + 2,
        forall|k: int|
            0 <= k < excluded@.len() ==> #[trigger] excluded@[k] == is_excluded_section(object@, k),
    ensures
        r == verdict(object@, s@, c_only, exclude@),
{
    let section: usize = match s.section {
        Some(section) => section,
        None => return Verdict::NotExportable,
    };
    let name: &Vec<u8> = match &s.name {
        Some(name) => name,
        None => return Verdict::NotExportable,
    };
    if !s.definition || !s.global || name.len() == 0 {
        return Verdict::NotExportable;
    }
    if c_only && name[0] == 0x3f {
        return Verdict::Mangled;
    }
    if is_skip_symbol(name) || bytes_begin_any(name, exclude) {
        return Verdict::Name;
    }
    if section < excluded.len() && excluded[section] {
        return Verdict::Comdat;
    }
    let code: bool = 1 <= section && section <= object.code.len() && object.code[section - 1];
    Verdict::Export { data: !code }
}

/// What the first `n` symbols of an object export.
pub open spec fn exported(
    object: CoffView,
    c_only: bool,
    exclude: Seq<String>,
    n: int,
) -> Seq<(Seq<u8>, bool)>
    decreases n,
{
    if n <= 0 {
        Seq::empty()
    } else {
        let before = exported(object, c_only, exclude, n - 1);
        let s = object.symbols[n - 1];
        match verdict(object, s, c_only, exclude) {
            Verdict::Export { data } => before.push((s.name->Some_0, data)),
            _ => before,
        }
    }
}

/// What an object exports.
pub open spec fn object_exports(object: CoffView, c_only: bool, exclude: Seq<String>) -> Seq<
    (Seq<u8>, bool),
> {
    exported(object, c_only, exclude, object.symbols.len() as int)
}

/// Append what an object exports.
pub fn scan_coff_object(
    out: &mut Vec<DefSymbol>,
    object: &CoffObject,
    c_only: bool,
    exclude: &[String],
)
    requires
        object.code@.len() + 2 <= usize::MAX,
    ensures
        symbol_pairs(final(out)@) == symbol_pairs(old(out)@) + object_exports(
            object@,
            c_only,
            exclude@,
        ),
{
    let ghost view = object@;
    let excluded: Vec<bool> = comdat_excluded_sections(object);
    let ghost before = symbol_pairs(out@);
    let mut i: usize = 0;
    assert(symbol_pairs(out@) =~= before + exported(view, c_only, exclude@, 0));
    while i < object.symbols.len()
        invariant
            i <= object.symbols@.len(),
            view == object@,
            before == symbol_pairs(old(out)@),
            excluded@.len() == object.code@.len() + 2,
            forall|k: int|
                0 <= k < excluded@.len() ==> #[trigger] excluded@[k] == is_excluded_section(view, k),
            symbol_pairs(out@) == before + exported(view, c_only, exclude@, i as int),
        decreases object.symbols@.len() - i,
    {
        let s: &CoffSymbol = &object.symbols[i];
        assert(view.symbols[i as int] == s@);
        let ghost so_far = symbol_pairs(out@);
        match classify(object, &excluded, s, c_only, exclude) {
            Verdict::Export { data } => {
                match &s.name {
                    Some(name) => {
                        out.push(DefSymbol { name: copy_bytes(name), data });
                        assert(symbol_pairs(out@) =~= so_far.push((name@, data)));
                        assert(symbol_pairs(out@) =~= before + exported(
                            view,
                            c_only,
                            exclude@,
                            i + 1,
                        ));
                    },
                    None => {},
                }
            },
            _ => {},
        }
        i = i + 1;
    }
}

/// What the first `n` members of an archive export. Import libraries and empty members aren't COFF
/// objects, and are passed over.
pub open spec fn member_exports(
    members: Seq<Seq<u8>>,
    c_only: bool,
    exclude: Seq<String>,
    n: int,
) -> Seq<(Seq<u8>, bool)>
    decreases n,
{
    if n <= 0 {
        Seq::empty()
    } else {
        member_exports(members, c_only, exclude, n - 1) + match coff_object(members[n - 1]) {
            Some(object) => object_exports(object, c_only, exclude),
            None => Seq::empty(),
        }
    }
}

/// What an object or an archive exports.
pub open spec fn path_exports(
    data: Seq<u8>,
    at: usize,
    c_only: bool,
    exclude: Seq<String>,
) -> Result<Seq<(Seq<u8>, bool)>, DefError> {
    if is_archive(data) {
        match archive_members(data) {
            Err(ArchiveFault::Parse) => Err(DefError::BadArchive(at)),
            Err(ArchiveFault::Member) => Err(DefError::BadMember(at)),
            Ok(members) => Ok(member_exports(members, c_only, exclude, members.len() as int)),
        }
    } else {
        match coff_object(data) {
            Some(object) => Ok(object_exports(object, c_only, exclude)),
            None => Err(DefError::BadObject(at)),
        }
    }
}

/// Append what an object exports, where it can be held.
fn scan_object(out: &mut Vec<DefSymbol>, data: &[u8], c_only: bool, exclude: &[String]) -> (r: bool)
    ensures
        r == (coff_object(data@) is Some),
        symbol_pairs(final(out)@) == symbol_pairs(old(out)@) + match coff_object(data@) {
            Some(object) => object_exports(object, c_only, exclude@),
            None => Seq::empty(),
        },
{
    let ghost before = symbol_pairs(out@);
    match read_coff(data) {
        Some(object) => {
            assert(data.len() <= usize::MAX);
            scan_coff_object(out, &object, c_only, exclude);
            true
        },
        None => {
            assert(before =~= before + Seq::<(Seq<u8>, bool)>::empty());
            false
        },
    }
}

/// Append what an object or an archive exports.
pub fn scan_path(
    out: &mut Vec<DefSymbol>,
    data: &[u8],
    at: usize,
    c_only: bool,
    exclude: &[String],
) -> (r: Result<(), DefError>)
    ensures
        match r {
            Ok(_) => path_exports(data@, at, c_only, exclude@) matches Ok(found)
                && symbol_pairs(final(out)@) == symbol_pairs(old(out)@) + found,
            Err(e) => path_exports(data@, at, c_only, exclude@) == Err::<
                Seq<(Seq<u8>, bool)>,
                DefError,
            >(e),
        },
{
    let ghost before = symbol_pairs(out@);
    if looks_like_archive(data) {
        let members: Vec<Vec<u8>> = match read_members(data) {
            Ok(members) => members,
            Err(ArchiveFault::Parse) => return Err(DefError::BadArchive(at)),
            Err(ArchiveFault::Member) => return Err(DefError::BadMember(at)),
        };
        let ghost all = byte_rows(members@);
        let mut i: usize = 0;
        assert(before =~= before + member_exports(all, c_only, exclude@, 0));
        while i < members.len()
            invariant
                i <= members@.len(),
                all == byte_rows(members@),
                before == symbol_pairs(old(out)@),
                symbol_pairs(out@) == before + member_exports(all, c_only, exclude@, i as int),
            decreases members@.len() - i,
        {
            assert(all[i as int] == members@[i as int]@);
            let _parsed: bool = scan_object(out, &members[i], c_only, exclude);
            assert(symbol_pairs(out@) =~= before + member_exports(all, c_only, exclude@, i + 1));
            i = i + 1;
        }
        return Ok(());
    }
    if scan_object(out, data, c_only, exclude) {
        Ok(())
    } else {
        Err(DefError::BadObject(at))
    }
}

/// What the first `n` files export, the files numbered from `base` on; the error of the first file
/// that cannot be scanned.
pub open spec fn file_exports(
    files: Seq<Seq<u8>>,
    base: int,
    c_only: bool,
    exclude: Seq<String>,
    n: int,
) -> Result<Seq<(Seq<u8>, bool)>, DefError>
    decreases n,
{
    if n <= 0 {
        Ok(Seq::empty())
    } else {
        match file_exports(files, base, c_only, exclude, n - 1) {
            Err(e) => Err(e),
            Ok(before) => match path_exports(
                files[n - 1],
                (base + n - 1) as usize,
                c_only,
                exclude,
            ) {
                Err(e) => Err(e),
                Ok(found) => Ok(before + found),
            },
        }
    }
}

proof fn lemma_file_exports_error(
    files: Seq<Seq<u8>>,
    base: int,
    c_only: bool,
    exclude: Seq<String>,
    n: int,
    m: int,
)
    requires
        0 <= n <= m,
        file_exports(files, base, c_only, exclude, n) is Err,
    ensures
        file_exports(files, base, c_only, exclude, m) == file_exports(
            files,
            base,
            c_only,
            exclude,
            n,
        ),
    decreases m,
{
    if n < m {
        lemma_file_exports_error(files, base, c_only, exclude, n, m - 1);
    }
}

/// Append what the files export.
fn scan_files(
    out: &mut Vec<DefSymbol>,
    files: &[Vec<u8>],
    base: usize,
    c_only: bool,
    exclude: &[String],
) -> (r: Result<(), DefError>)
    requires
        base + files@.len() <= usize::MAX,
    ensures
        match r {
            Ok(_) => file_exports(
                byte_rows(files@),
                base as int,
                c_only,
                exclude@,
                files@.len() as int,
            ) matches Ok(found) && symbol_pairs(final(out)@) == symbol_pairs(old(out)@) + found,
            Err(e) => file_exports(
                byte_rows(files@),
                base as int,
                c_only,
                exclude@,
                files@.len() as int,
            ) == Err::<Seq<(Seq<u8>, bool)>, DefError>(e),
        },
{
    let ghost all = byte_rows(files@);
    let ghost before = symbol_pairs(out@);
    let mut i: usize = 0;
    assert(before =~= before + Seq::<(Seq<u8>, bool)>::empty());
    while i < files.len()
        invariant
            i <= files@.len(),
            base + files@.len() <= usize::MAX,
            all == byte_rows(files@),
            before == symbol_pairs(old(out)@),
            file_exports(all, base as int, c_only, exclude@, i as int) matches Ok(found)
                && symbol_pairs(out@) == before + found,
        decreases files@.len() - i,
    {
        assert(all[i as int] == files@[i as int]@);
        let ghost so_far = file_exports(all, base as int, c_only, exclude@, i as int)->Ok_0;
        let ghost this = path_exports(all[i as int], (base + i) as usize, c_only, exclude@);
        match scan_path(out, &files[i], base + i, c_only, exclude) {
            Ok(_) => {
                assert(symbol_pairs(out@) =~= before + (so_far + this->Ok_0));
            },
            Err(e) => {
                proof {
                    lemma_file_exports_error(
                        all,
                        base as int,
                        c_only,
                        exclude@,
                        i + 1,
                        files@.len() as int,
                    );
                }
                return Err(e);
            },
        }
        i = i + 1;
    }
    Ok(())
}

impl Ranked for DefSymbol {
    type Key = Seq<u8>;

    open spec fn key(&self) -> Seq<u8> {
        self.name@
    }

    open spec fn precedes(a: Seq<u8>, b: Seq<u8>) -> bool {
        bytes_lt(a, b)
    }

    proof fn precedes_irreflexive(a: Seq<u8>) {
        lemma_bytes_lt_irreflexive(a);
    }

    proof fn precedes_transitive(a: Seq<u8>, b: Seq<u8>, c: Seq<u8>) {
        lemma_bytes_lt_transitive(a, b, c);
    }

    proof fn precedes_total(a: Seq<u8>, b: Seq<u8>) {
        lemma_bytes_lt_total(a, b);
    }

    fn less(&self, other: &Self) -> bool {
        bytes_less(&self.name, &other.name)
    }
}

/// What the first thing with a name is.
pub open spec fn first_named<V>(pairs: Seq<(Seq<u8>, V)>, name: Seq<u8>) -> V {
    pairs[first_parts(pairs).index_of_first(name)->Some_0].1
}

/// Named things in the order of their names, each name once, with what the first of the name is.
pub open spec fn in_name_order<V>(pairs: Seq<(Seq<u8>, V)>) -> Seq<(Seq<u8>, V)> {
    let names = sorted_form::<Vec<u8>>(first_parts(pairs));
    Seq::new(names.len(), |i: int| (names[i], first_named(pairs, names[i])))
}

/// Two types whose values are ordered by bytes sort alike.
pub proof fn lemma_same_order<A: Ranked<Key = Seq<u8>>, B: Ranked<Key = Seq<u8>>>(s: Seq<Seq<u8>>)
    requires
        forall|a: Seq<u8>, b: Seq<u8>| A::precedes(a, b) == B::precedes(a, b),
    ensures
        sorted_form::<A>(s) == sorted_form::<B>(s),
{
    lemma_sorted_form_exists::<A>(s);
    let t = sorted_form::<A>(s);
    assert(ascending::<B>(t));
    crate::order::lemma_sorted_form::<B>(t, s);
}

/// Put the exports in the order of their names. A name that comes up again keeps its first
/// classification.
pub fn sort_exports(found: &[DefSymbol]) -> (r: Vec<DefSymbol>)
    ensures
        symbol_pairs(r@) == in_name_order(symbol_pairs(found@)),
{
    let ghost pairs = symbol_pairs(found@);
    let places: Vec<usize> = distinct_order(found);
    let mut r: Vec<DefSymbol> = Vec::new();
    let mut i: usize = 0;
    while i < places.len()
        invariant
            i <= places@.len(),
            r@.len() == i,
            forall|k: int| 0 <= k < places@.len() ==> (#[trigger] places@[k]) < found@.len(),
            forall|k: int|
                0 <= k < i ==> (#[trigger] r@[k]).name@ == found@[places@[k] as int].name@
                    && r@[k].data == found@[places@[k] as int].data,
        decreases places@.len() - i,
    {
        let s: &DefSymbol = &found[places[i]];
        r.push(DefSymbol { name: copy_bytes(&s.name), data: s.data });
        i = i + 1;
    }
    proof {
        let names = first_parts(pairs);
        assert(keys(found@) =~= names);
        lemma_same_order::<DefSymbol, Vec<u8>>(names);
        let sorted = sorted_form::<Vec<u8>>(names);
        assert(keys_at(found@, places@) == sorted);
        assert forall|k: int| 0 <= k < r@.len() implies symbol_pairs(r@)[k] == in_name_order(
            pairs,
        )[k] by {
            let at = places@[k] as int;
            assert(keys_at(found@, places@)[k] == found@[at].name@);
            assert(names[at] == sorted[k]);
            assert(is_first(found@, at));
            assert forall|j: int| 0 <= j < at implies names[j] != sorted[k] by {
                assert(found@[j].key() != found@[at].key());
            }
            names.index_of_first_ensures(sorted[k]);
            assert(names.contains(sorted[k]));
        }
        assert(symbol_pairs(r@) =~= in_name_order(pairs));
    }
    r
}

/// Turn the backslashes of a path around.
pub fn norm(path: &str) -> (r: String)
    ensures
        r@ == slashed(path@),
{
    string_from_chars(&slash(&to_chars(path)))
}

/// Paths with slashes for backslashes.
pub open spec fn all_slashed(paths: Seq<Seq<char>>) -> Seq<Seq<char>> {
    Seq::new(paths.len(), |i: int| slashed(paths[i]))
}

/// Turn the backslashes of all paths around.
pub fn norm_all(paths: &[String]) -> (r: Vec<String>)
    ensures
        texts(r@) == all_slashed(texts(paths@)),
{
    let ghost all = all_slashed(texts(paths@));
    let mut r: Vec<String> = Vec::new();
    let mut i: usize = 0;
    assert(texts(r@) =~= all.subrange(0, 0));
    while i < paths.len()
        invariant
            i <= paths@.len(),
            all == all_slashed(texts(paths@)),
            texts(r@) == all.subrange(0, i as int),
        decreases paths@.len() - i,
    {
        let ghost before = texts(r@);
        r.push(norm(&paths[i]));
        assert(texts(r@) =~= before.push(slashed(paths@[i as int]@)));
        assert(texts(r@) =~= all.subrange(0, i + 1));
        i = i + 1;
    }
    assert(texts(r@) =~= all);
    r
}

/// Whether a path is scanned: no excluded part stands in it and, where parts are asked for, one of
/// these does. The path is taken with slashes for backslashes, the parts as they are.
pub open spec fn is_included(
    path: Seq<char>,
    includes: Seq<Seq<char>>,
    excludes: Seq<Seq<char>>,
) -> bool {
    let whole = encode_utf8(slashed(path));
    !holds_any(whole, excludes) && (includes.len() == 0 || holds_any(whole, includes))
}

/// Whether a path is scanned.
pub fn path_included(path: &str, includes: &[String], excludes: &[String]) -> (r: bool)
    ensures
        r == is_included(path@, texts(includes@), texts(excludes@)),
{
    let whole: String = norm(path);
    let bytes: &[u8] = whole.as_str().as_bytes();
    !bytes_hold_any(bytes, excludes) && (includes.len() == 0 || bytes_hold_any(bytes, includes))
}

/// Whether a path is a compiled resource, which rides along with the objects.
pub open spec fn is_resource(path: Seq<u8>) -> bool {
    let n = path.len() as int;
    n >= 4 && path[n - 4] == 0x2e && (path[n - 3] == 0x72 || path[n - 3] == 0x52) && (path[n - 2]
        == 0x65 || path[n - 2] == 0x45) && (path[n - 1] == 0x73 || path[n - 1] == 0x53)
}

/// Whether a path is a compiled resource.
pub fn ends_in_res(path: &str) -> (r: bool)
    ensures
        r == is_resource(encode_utf8(path@)),
{
    let b: &[u8] = path.as_bytes();
    let n: usize = b.len();
    n >= 4 && b[n - 4] == 0x2e && (b[n - 3] == 0x72 || b[n - 3] == 0x52) && (b[n - 2] == 0x65
        || b[n - 2] == 0x45) && (b[n - 1] == 0x73 || b[n - 1] == 0x53)
}

/// The paths among the first `n` that are scanned.
pub open spec fn paths_included(
    paths: Seq<Seq<char>>,
    includes: Seq<Seq<char>>,
    excludes: Seq<Seq<char>>,
    n: int,
) -> Seq<Seq<char>>
    decreases n,
{
    if n <= 0 {
        Seq::empty()
    } else {
        let before = paths_included(paths, includes, excludes, n - 1);
        let path = paths[n - 1];
        if !is_resource(encode_utf8(path)) && is_included(path, includes, excludes) {
            before.push(paths[n - 1])
        } else {
            before
        }
    }
}

/// Find the paths that are scanned among the inputs.
pub fn select_inputs(inputs: &[String], args: &Args) -> (r: Result<Vec<String>, DefError>)
    ensures
        match r {
            Ok(paths) => inputs@.len() > 0 && texts(paths@) == paths_included(
                texts(inputs@),
                all_slashed(texts(args.includes@)),
                all_slashed(texts(args.excludes@)),
                inputs@.len() as int,
            ),
            Err(e) => inputs@.len() == 0 && e == DefError::NoInputs,
        },
{
    if inputs.len() == 0 {
        return Err(DefError::NoInputs);
    }
    let ghost all = texts(inputs@);
    let includes: Vec<String> = norm_all(&args.includes);
    let excludes: Vec<String> = norm_all(&args.excludes);
    let mut out: Vec<String> = Vec::new();
    let mut i: usize = 0;
    assert(texts(out@) =~= Seq::empty());
    while i < inputs.len()
        invariant
            i <= inputs@.len(),
            all == texts(inputs@),
            texts(out@) == paths_included(all, texts(includes@), texts(excludes@), i as int),
        decreases inputs@.len() - i,
    {
        assert(all[i as int] == inputs@[i as int]@);
        if !ends_in_res(&inputs[i]) && path_included(&inputs[i], &includes, &excludes) {
            let ghost before = texts(out@);
            out.push(string_from_chars(&to_chars(&inputs[i])));
            assert(texts(out@) =~= before.push(all[i as int]));
        }
        i = i + 1;
    }
    Ok(out)
}

/// A generated `.def`.
pub struct Definition {
    pub def: Vec<u8>,
    /// How many symbols it exports, forwarders included.
    pub exports: usize,
    /// How many of them are data.
    pub data: usize,
    /// How many of them are forwarders.
    pub forwarded: usize,
    /// Whether it exports more symbols than allowed.
    pub over_limit: bool,
    /// The names that come up both as code and as data.
    pub mixed: Vec<Vec<u8>>,
}

/// How many of the first `n` exports are data.
pub open spec fn data_count(exports: Seq<(Seq<u8>, bool)>, n: int) -> int
    decreases n,
{
    if n <= 0 {
        0
    } else {
        data_count(exports, n - 1) + if exports[n - 1].1 {
            1int
        } else {
            0int
        }
    }
}

fn count_data(exports: &[DefSymbol]) -> (r: usize)
    ensures
        r == data_count(symbol_pairs(exports@), exports@.len() as int),
{
    let ghost pairs = symbol_pairs(exports@);
    let mut r: usize = 0;
    let mut i: usize = 0;
    while i < exports.len()
        invariant
            i <= exports@.len(),
            r <= i,
            pairs == symbol_pairs(exports@),
            r == data_count(pairs, i as int),
        decreases exports@.len() - i,
    {
        assert(pairs[i as int].1 == exports@[i as int].data);
        if exports[i].data {
            r = r + 1;
        }
        i = i + 1;
    }
    r
}

/// The local exports and the forwarders, each in the order of their names.
pub open spec fn surface(
    objects: Seq<Seq<u8>>,
    libs: Seq<Seq<u8>>,
    dlls: Seq<ForwardDll>,
    args: Args,
) -> Result<(Seq<(Seq<u8>, bool)>, Seq<(Seq<u8>, Seq<u8>)>), DefError> {
    match file_exports(objects, 0, false, args.exclude_sym@, objects.len() as int) {
        Err(e) => Err(e),
        Ok(from_objects) => match file_exports(
            libs,
            objects.len() as int,
            true,
            args.exclude_sym@,
            libs.len() as int,
        ) {
            Err(e) => Err(e),
            Ok(from_libs) => match forwarders_of(
                dlls,
                args.forward_sym_prefix@,
                args.exclude_sym@,
                dlls.len() as int,
            ) {
                Err(e) => Err(e),
                Ok(found) => Ok((in_name_order(from_objects + from_libs), in_name_order(found))),
            },
        },
    }
}

/// What the objects and the libraries export, in the order in which they are scanned.
pub open spec fn scanned_exports(
    objects: Seq<Seq<u8>>,
    libs: Seq<Seq<u8>>,
    args: Args,
) -> Seq<(Seq<u8>, bool)> {
    file_exports(objects, 0, false, args.exclude_sym@, objects.len() as int)->Ok_0 + file_exports(
        libs,
        objects.len() as int,
        true,
        args.exclude_sym@,
        libs.len() as int,
    )->Ok_0
}

/// Whether a definition is the one of the exports and the forwarders.
pub open spec fn is_definition(
    d: Definition,
    local: Seq<(Seq<u8>, bool)>,
    forward: Seq<(Seq<u8>, Seq<u8>)>,
    max_exports: usize,
) -> bool {
    &&& is_def_of(local, forward, Ok(d.def@))
    &&& d.exports == local.len() + forward.len()
    &&& d.data == data_count(local, local.len() as int)
    &&& d.forwarded == forward.len()
    &&& d.over_limit == (max_exports != 0 && d.exports > max_exports)
}

/// Generate the `.def` of the selected objects, the libraries and the forward DLLs.
pub fn run(args: &Args, objects: &[Vec<u8>], libs: &[Vec<u8>], dlls: &[ForwardDll]) -> (r: Result<
    Definition,
    DefError,
>)
    requires
        objects@.len() + libs@.len() <= usize::MAX,
    ensures
        match surface(byte_rows(objects@), byte_rows(libs@), dlls@, *args) {
            Err(e) => r == Err::<Definition, DefError>(e),
            Ok((local, forward)) => match r {
                Ok(d) => is_definition(d, local, forward, args.max_exports) && ({
                    let all = scanned_exports(byte_rows(objects@), byte_rows(libs@), *args);
                    byte_rows(d.mixed@) == mixed_names(all, all.len() as int)
                }),
                Err(e) => is_def_of(local, forward, Err(e)) || (e == DefError::TooMany
                    && local.len() + forward.len() > usize::MAX),
            },
        },
{
    let mut found: Vec<DefSymbol> = Vec::new();
    assert(symbol_pairs(found@) =~= Seq::empty());
    scan_files(&mut found, objects, 0, false, &args.exclude_sym)?;
    scan_files(&mut found, libs, objects.len(), true, &args.exclude_sym)?;
    proof {
        let from_objects = file_exports(
            byte_rows(objects@),
            0,
            false,
            args.exclude_sym@,
            objects@.len() as int,
        )->Ok_0;
        assert(Seq::<(Seq<u8>, bool)>::empty() + from_objects =~= from_objects);
    }
    let exports: Vec<DefSymbol> = sort_exports(&found);
    let unsorted: Vec<Forwarder> = scan_forwarders(
        dlls,
        &args.forward_sym_prefix,
        &args.exclude_sym,
    )?;
    let forwarders: Vec<Forwarder> = sort_forwarders(&unsorted);
    let def: Vec<u8> = render_def(&exports, &forwarders)?;
    assert(symbol_pairs(exports@).len() == exports@.len());
    assert(forwarder_pairs(forwarders@).len() == forwarders@.len());
    let count: usize = match exports.len().checked_add(forwarders.len()) {
        Some(count) => count,
        None => return Err(DefError::TooMany),
    };
    Ok(
        Definition {
            def,
            exports: count,
            data: count_data(&exports),
            forwarded: forwarders.len(),
            over_limit: args.max_exports != 0 && count > args.max_exports,
            mixed: find_mixed(&found, &exports),
        },
    )
}

} // verus!
