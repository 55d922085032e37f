//! What the `object` crate finds in an object file, as plain values.
//!
//! Each function here makes one query of the crate and gives its answer a name, so that the code
//! that decides by the answer can be stated exactly.

use object::{BinaryFormat, Object, ObjectSection, ObjectSymbol, SymbolKind, SymbolScope};
use object::read::archive::ArchiveFile;
use vstd::prelude::*;
use vstd::utf8::*;
use crate::bytes::{begins, byte_rows, bytes_begin, copy_bytes};

verus! {

/// Binary formats that are told apart.
#[derive(Clone, Copy, Debug, PartialEq, Eq, Structural)]
pub enum Format {
    Pe,
    Elf,
    MachO,
    Other,
}

/// Image kinds that are told apart.
#[derive(Clone, Copy, Debug, PartialEq, Eq, Structural)]
pub enum ImageKind {
    Pe32,
    Pe64,
    Elf32,
    Elf64,
    MachO32,
    MachO64,
    Other,
}

/// The kind that `object::FileKind::parse` gives; nothing where the file has none.
pub uninterp spec fn file_kind(data: Seq<u8>) -> Option<ImageKind>;

/// The file range of the section that `object::File::section_by_name` finds: nothing without such a
/// section, no range for a section without file contents.
pub uninterp spec fn file_section_range(data: Seq<u8>, name: Seq<char>) -> Option<
    Option<(u64, u64)>,
>;

/// The format that `object::File::format` gives; nothing where the file cannot be parsed.
pub uninterp spec fn file_format(data: Seq<u8>) -> Option<Format>;

/// The UUID that `object::File::mach_uuid` finds.
pub uninterp spec fn file_uuid(data: Seq<u8>) -> Option<Seq<u8>>;

/// The build id that `object::File::build_id` finds.
pub uninterp spec fn file_build_id(data: Seq<u8>) -> Option<Seq<u8>>;

/// The contents of the section that `object::File::section_by_name` finds: nothing without such a
/// section, no contents where they cannot be read.
pub uninterp spec fn file_section(data: Seq<u8>, name: Seq<char>) -> Option<Option<Seq<u8>>>;

/// `object::FileKind::parse`: the kind of the file, under the name of the result.
#[verifier::external_body]
pub(crate) fn read_kind(data: &[u8]) -> (r: Option<ImageKind>)
    ensures
        r == file_kind(data@),
{
    Some(match object::FileKind::parse(data).ok()? {
        object::FileKind::Pe32 => ImageKind::Pe32,
        object::FileKind::Pe64 => ImageKind::Pe64,
        object::FileKind::Elf32 => ImageKind::Elf32,
        object::FileKind::Elf64 => ImageKind::Elf64,
        object::FileKind::MachO32 => ImageKind::MachO32,
        object::FileKind::MachO64 => ImageKind::MachO64,
        _ => ImageKind::Other,
    })
}

/// `ObjectSection::file_range`: the file range of a section, under the name of the result.
#[verifier::external_body]
pub(crate) fn read_section_range(data: &[u8], name: &str) -> (r: Option<Option<(u64, u64)>>)
    ensures
        r == file_section_range(data@, name@),
{
    let file = object::File::parse(data).ok()?;
    Some(file.section_by_name(name)?.file_range())
}

/// `object::File::format`: the format of the file, under the name of the result.
#[verifier::external_body]
pub(crate) fn read_format(data: &[u8]) -> (r: Option<Format>)
    ensures
        r == file_format(data@),
{
    Some(match object::File::parse(data).ok()?.format() {
        BinaryFormat::Pe => Format::Pe,
        BinaryFormat::Elf => Format::Elf,
        BinaryFormat::MachO => Format::MachO,
        _ => Format::Other,
    })
}

/// `object::File::mach_uuid`: the UUID of a Mach-O file, under the name of the result. A PE image has
/// none.
#[verifier::external_body]
pub(crate) fn read_uuid(data: &[u8]) -> (r: Option<[u8; 16]>)
    ensures
        match r {
            Some(uuid) => file_uuid(data@) == Some(uuid@),
            None => file_uuid(data@) is None,
        },
        file_format(data@) == Some(Format::Pe) ==> r is None,
{
    object::File::parse(data).ok()?.mach_uuid().ok()?
}

/// `object::File::build_id`: the GNU build id of an ELF file, under the name of the result. A PE image
/// has none.
#[verifier::external_body]
pub(crate) fn read_build_id(data: &[u8]) -> (r: Option<Vec<u8>>)
    ensures
        match r {
            Some(id) => file_build_id(data@) == Some(id@),
            None => file_build_id(data@) is None,
        },
        file_format(data@) == Some(Format::Pe) ==> r is None,
{
    object::File::parse(data).ok()?.build_id().ok()?.map(Vec::from)
}

/// `ObjectSection::data`: the contents of a section, under the name of the result.
#[verifier::external_body]
pub(crate) fn read_section_data(data: &[u8], name: &str) -> (r: Option<Option<Vec<u8>>>)
    ensures
        match r {
            Some(Some(contents)) => file_section(data@, name@) == Some(Some(contents@)),
            Some(None) => file_section(data@, name@) == Some(None::<Seq<u8>>),
            None => file_section(data@, name@) is None,
        },
{
    let file = object::File::parse(data).ok()?;
    let section = file.section_by_name(name)?;
    Some(section.data().ok().map(|contents| contents.to_vec()))
}

/// Symbol kinds that are told apart.
#[derive(Clone, Copy, Debug, PartialEq, Eq, Structural)]
pub enum SymbolClass {
    Text,
    Data,
    Unknown,
    Other,
}

/// A symbol as an object file gives it.
pub struct SymbolFact {
    /// The name, where it can be read and is UTF-8.
    pub name: Option<Vec<u8>>,
    pub kind: SymbolClass,
    pub undefined: bool,
    pub definition: bool,
    pub global: bool,
    pub local: bool,
    pub weak: bool,
    /// Whether the symbol's scope reaches beyond its image.
    pub dynamic: bool,
}

/// A symbol as a plain value.
pub struct SymbolView {
    pub name: Option<Seq<u8>>,
    pub kind: SymbolClass,
    pub undefined: bool,
    pub definition: bool,
    pub global: bool,
    pub local: bool,
    pub weak: bool,
    pub dynamic: bool,
}

impl View for SymbolFact {
    type V = SymbolView;

    open spec fn view(&self) -> SymbolView {
        SymbolView {
            name: match self.name {
                Some(name) => Some(name@),
                None => None,
            },
            kind: self.kind,
            undefined: self.undefined,
            definition: self.definition,
            global: self.global,
            local: self.local,
            weak: self.weak,
            dynamic: self.dynamic,
        }
    }
}

/// The symbols as plain values.
pub open spec fn symbol_views(symbols: Seq<SymbolFact>) -> Seq<SymbolView> {
    Seq::new(symbols.len(), |i: int| symbols[i]@)
}

/// The symbols that `object::File::symbols` lists; nothing where the file cannot be parsed.
pub uninterp spec fn file_symbols(data: Seq<u8>) -> Option<Seq<SymbolView>>;

/// The symbols that `object::File::dynamic_symbols` lists; nothing where the file cannot be parsed.
pub uninterp spec fn file_dynamic_symbols(data: Seq<u8>) -> Option<Seq<SymbolView>>;

/// `object::File::symbols`: the symbols of the file, under the name of the result.
#[verifier::external_body]
pub(crate) fn read_symbols(data: &[u8]) -> (r: Option<Vec<SymbolFact>>)
    ensures
        match r {
            Some(symbols) => file_symbols(data@) == Some(symbol_views(symbols@)),
            None => file_symbols(data@) is None,
        },
{
    let file = object::File::parse(data).ok()?;
    let facts = file.symbols().map(|s| SymbolFact {
        name: s.name().ok().map(|name| name.as_bytes().to_vec()),
        kind: match s.kind() { SymbolKind::Text => SymbolClass::Text, SymbolKind::Data => SymbolClass::Data, SymbolKind::Unknown => SymbolClass::Unknown, _ => SymbolClass::Other },
        undefined: s.is_undefined(),
        definition: s.is_definition(),
        global: s.is_global(),
        local: s.is_local(),
        weak: s.is_weak(),
        dynamic: s.scope() == SymbolScope::Dynamic,
    });
    Some(facts.collect())
}

/// `object::File::dynamic_symbols`: the dynamic symbols of the file, under the name of the result.
#[verifier::external_body]
pub(crate) fn read_dynamic_symbols(data: &[u8]) -> (r: Option<Vec<SymbolFact>>)
    ensures
        match r {
            Some(symbols) => file_dynamic_symbols(data@) == Some(symbol_views(symbols@)),
            None => file_dynamic_symbols(data@) is None,
        },
{
    let file = object::File::parse(data).ok()?;
    let facts = file.dynamic_symbols().map(|s| SymbolFact {
        name: s.name().ok().map(|name| name.as_bytes().to_vec()),
        kind: match s.kind() { SymbolKind::Text => SymbolClass::Text, SymbolKind::Data => SymbolClass::Data, SymbolKind::Unknown => SymbolClass::Unknown, _ => SymbolClass::Other },
        undefined: s.is_undefined(),
        definition: s.is_definition(),
        global: s.is_global(),
        local: s.is_local(),
        weak: s.is_weak(),
        dynamic: s.scope() == SymbolScope::Dynamic,
    });
    Some(facts.collect())
}

/// The addresses that `ObjectSymbol::address` gives the symbols that `object::File::symbols` lists;
/// nothing where the file cannot be parsed.
pub uninterp spec fn file_addresses(data: Seq<u8>) -> Option<Seq<u64>>;

/// `ObjectSymbol::address`: the addresses of the symbols of the file, under the name of the result.
/// A PE image is left out: the crate adds its image base to the place of a symbol without a test
/// that the sum fits.
#[verifier::external_body]
pub(crate) fn read_addresses(data: &[u8]) -> (r: Option<Vec<u64>>)
    requires
        file_format(data@) is Some,
        file_format(data@) != Some(Format::Pe),
    ensures
        match r {
            Some(addresses) => file_addresses(data@) == Some(addresses@),
            None => file_addresses(data@) is None,
        },
{
    Some(object::File::parse(data).ok()?.symbols().map(|s| s.address()).collect())
}

/// What can be wrong with an archive.
#[derive(Clone, Copy, Debug, PartialEq, Eq, Structural)]
pub enum ArchiveFault {
    /// The archive does not parse.
    Parse,
    /// A member cannot be read.
    Member,
}

/// A member of an archive as a plain value: its name, and its contents where they can be read.
pub open spec fn member_views(members: Seq<(Vec<u8>, Option<Vec<u8>>)>) -> Seq<
    (Seq<u8>, Option<Seq<u8>>),
> {
    Seq::new(
        members.len(),
        |i: int|
            (
                members[i].0@,
                match members[i].1 {
                    Some(contents) => Some(contents@),
                    None => None,
                },
            ),
    )
}

/// The names and the contents of the members that `object::read::archive::ArchiveFile` finds in an
/// archive.
pub uninterp spec fn archive_named_members(data: Seq<u8>) -> Result<
    Seq<(Seq<u8>, Option<Seq<u8>>)>,
    ArchiveFault,
>;

/// Whether `object::read::archive::ArchiveFile` finds that an archive is a thin one.
pub uninterp spec fn archive_is_thin(data: Seq<u8>) -> Option<bool>;

/// `object::read::archive::ArchiveMember::name`: the members of an archive with their names, under
/// the name of the result.
#[verifier::external_body]
pub(crate) fn read_named_members(data: &[u8]) -> (r: Result<
    Vec<(Vec<u8>, Option<Vec<u8>>)>,
    ArchiveFault,
>)
    ensures
        match r {
            Ok(members) => archive_named_members(data@) == Ok::<
                Seq<(Seq<u8>, Option<Seq<u8>>)>,
                ArchiveFault,
            >(member_views(members@)),
            Err(e) => archive_named_members(data@) == Err::<
                Seq<(Seq<u8>, Option<Seq<u8>>)>,
                ArchiveFault,
            >(e),
        },
{
    let archive = ArchiveFile::parse(data).map_err(|_| ArchiveFault::Parse)?;
    let members = archive.members().map(|member| {
        let member = member.map_err(|_| ArchiveFault::Member)?;
        Ok((member.name().to_vec(), member.data(data).ok().map(Vec::from)))
    });
    members.collect()
}

/// The contents of the members of an archive, where all of them can be read.
pub open spec fn archive_members(data: Seq<u8>) -> Result<Seq<Seq<u8>>, ArchiveFault> {
    match archive_named_members(data) {
        Err(e) => Err(e),
        Ok(members) => if forall|i: int| 0 <= i < members.len() ==> (#[trigger] members[i]).1 is Some {
            Ok(Seq::new(members.len(), |i: int| members[i].1->0))
        } else {
            Err(ArchiveFault::Member)
        },
    }
}

/// Read the contents of the members of an archive.
pub(crate) fn read_members(data: &[u8]) -> (r: Result<Vec<Vec<u8>>, ArchiveFault>)
    ensures
        match r {
            Ok(members) => archive_members(data@) == Ok::<Seq<Seq<u8>>, ArchiveFault>(
                byte_rows(members@),
            ),
            Err(e) => archive_members(data@) == Err::<Seq<Seq<u8>>, ArchiveFault>(e),
        },
{
    let named: Vec<(Vec<u8>, Option<Vec<u8>>)> = read_named_members(data)?;
    let ghost views = member_views(named@);
    let mut members: Vec<Vec<u8>> = Vec::new();
    let mut i: usize = 0;
    while i < named.len()
        invariant
            i <= named@.len(),
            members@.len() == i,
            views == member_views(named@),
            archive_named_members(data@) == Ok::<
                Seq<(Seq<u8>, Option<Seq<u8>>)>,
                ArchiveFault,
            >(views),
            forall|k: int|
                0 <= k < i ==> (#[trigger] views[k]).1 == Some(members@[k]@),
        decreases named@.len() - i,
    {
        match &named[i].1 {
            Some(contents) => {
                members.push(copy_bytes(contents));
            },
            None => {
                assert(views[i as int].1 is None);
                return Err(ArchiveFault::Member);
            },
        }
        i = i + 1;
    }
    assert(byte_rows(members@) =~= Seq::new(views.len(), |k: int| views[k].1->0));
    Ok(members)
}

/// `object::read::archive::ArchiveFile::is_thin`: whether an archive is a thin one, under the name of
/// the result.
#[verifier::external_body]
pub(crate) fn read_is_thin(data: &[u8]) -> (r: Option<bool>)
    ensures
        r == archive_is_thin(data@),
{
    Some(ArchiveFile::parse(data).ok()?.is_thin())
}

/// A function of a debug map: the object that it comes from, its name, and its address.
pub struct MapFact {
    pub path: Vec<u8>,
    pub member: Option<Vec<u8>>,
    pub name: Vec<u8>,
    pub address: u64,
}

/// A function of a debug map, as a plain value.
pub struct MapView {
    pub path: Seq<u8>,
    pub member: Option<Seq<u8>>,
    pub name: Seq<u8>,
    pub address: u64,
}

impl View for MapFact {
    type V = MapView;

    open spec fn view(&self) -> MapView {
        MapView {
            path: self.path@,
            member: match self.member {
                Some(member) => Some(member@),
                None => None,
            },
            name: self.name@,
            address: self.address,
        }
    }
}

pub open spec fn map_views(facts: Seq<MapFact>) -> Seq<MapView> {
    Seq::new(facts.len(), |i: int| facts[i]@)
}

/// How many objects `object::File::object_map` lists, and the functions that it maps to them.
pub uninterp spec fn file_object_map(data: Seq<u8>) -> Option<(usize, Seq<MapView>)>;

/// `object::File::object_map`: the debug map of the file, under the name of the result.
#[verifier::external_body]
pub(crate) fn read_object_map(data: &[u8]) -> (r: Option<(usize, Vec<MapFact>)>)
    ensures
        match r {
            Some((objects, facts)) => file_object_map(data@) == Some((objects, map_views(facts@))),
            None => file_object_map(data@) is None,
        },
{
    let map = object::File::parse(data).ok()?.object_map();
    let facts = map.symbols().iter().map(|s| MapFact {
        path: s.object(&map).path().to_vec(),
        member: s.object(&map).member().map(Vec::from),
        name: s.name().to_vec(),
        address: s.address(),
    });
    Some((map.objects().len(), facts.collect()))
}

/// The names that `ObjectSymbol::name_bytes` gives the symbols that `object::File::symbols` lists.
pub uninterp spec fn file_symbol_names(data: Seq<u8>) -> Option<Seq<Option<Seq<u8>>>>;

/// Optional names as plain values.
pub open spec fn name_views(names: Seq<Option<Vec<u8>>>) -> Seq<Option<Seq<u8>>> {
    Seq::new(
        names.len(),
        |i: int|
            match names[i] {
                Some(name) => Some(name@),
                None => None,
            },
    )
}

/// `ObjectSymbol::name_bytes`: the names of the symbols as bytes, under the name of the result.
#[verifier::external_body]
pub(crate) fn read_symbol_names(data: &[u8]) -> (r: Option<Vec<Option<Vec<u8>>>>)
    ensures
        match r {
            Some(names) => file_symbol_names(data@) == Some(name_views(names@)),
            None => file_symbol_names(data@) is None,
        },
{
    let file = object::File::parse(data).ok()?;
    Some(file.symbols().map(|s| s.name_bytes().ok().map(Vec::from)).collect())
}

/// Whether the file begins like an archive.
pub open spec fn is_archive(data: Seq<u8>) -> bool {
    begins(data, encode_utf8("!<arch>"@))
}

/// Whether the file begins like an archive.
pub(crate) fn looks_like_archive(data: &[u8]) -> (r: bool)
    ensures
        r == is_archive(data@),
{
    bytes_begin(data, "!<arch>".as_bytes())
}

/// The names that `object::File::exports` lists: nothing where the file cannot be parsed, no names
/// where its exports cannot be read.
pub uninterp spec fn file_exports(data: Seq<u8>) -> Option<Option<Seq<Seq<u8>>>>;

/// `object::File::exports`: the names that the file exports, under the name of the result.
#[verifier::external_body]
pub(crate) fn read_exports(data: &[u8]) -> (r: Option<Option<Vec<Vec<u8>>>>)
    ensures
        match r {
            Some(Some(names)) => file_exports(data@) == Some(Some(byte_rows(names@))),
            Some(None) => file_exports(data@) == Some(None::<Seq<Seq<u8>>>),
            None => file_exports(data@) is None,
        },
{
    let file = object::File::parse(data).ok()?;
    Some(file.exports().ok().map(|names| names.iter().map(|e| e.name().to_vec()).collect()))
}

/// Architectures that are told apart.
#[derive(Clone, Copy, Debug, PartialEq, Eq, Structural)]
pub enum ImageArch {
    X86_64,
    Aarch64,
    Arm,
    Other,
}

/// The architecture that `object::File::architecture` gives; nothing where the file cannot be
/// parsed.
pub uninterp spec fn file_arch(data: Seq<u8>) -> Option<ImageArch>;

/// `object::File::architecture`: the architecture of the file, under the name of the result.
#[verifier::external_body]
pub(crate) fn read_arch(data: &[u8]) -> (r: Option<ImageArch>)
    ensures
        r == file_arch(data@),
{
    Some(match object::File::parse(data).ok()?.architecture() {
        object::Architecture::X86_64 => ImageArch::X86_64,
        object::Architecture::Aarch64 => ImageArch::Aarch64,
        object::Architecture::Arm => ImageArch::Arm,
        _ => ImageArch::Other,
    })
}

/// The address that `object::File::relative_address_base` gives; nothing where the file cannot be
/// parsed.
pub uninterp spec fn file_base(data: Seq<u8>) -> Option<u64>;

/// `object::File::relative_address_base`: the base address of the file, under the name of the
/// result.
#[verifier::external_body]
pub(crate) fn read_base(data: &[u8]) -> (r: Option<u64>)
    ensures
        r == file_base(data@),
{
    Some(object::File::parse(data).ok()?.relative_address_base())
}

/// A section of an image.
pub struct ImageSection {
    pub address: u64,
    /// The contents, where they can be read.
    pub data: Option<Vec<u8>>,
}

/// The sections as plain values.
pub open spec fn section_views(sections: Seq<ImageSection>) -> Seq<(u64, Option<Seq<u8>>)> {
    Seq::new(
        sections.len(),
        |i: int|
            (
                sections[i].address,
                match sections[i].data {
                    Some(data) => Some(data@),
                    None => None,
                },
            ),
    )
}

/// The sections that `object::File::sections` lists; nothing where the file cannot be parsed.
pub uninterp spec fn file_sections(data: Seq<u8>) -> Option<Seq<(u64, Option<Seq<u8>>)>>;

/// `object::File::sections`: the sections of the file, under the name of the result.
#[verifier::external_body]
pub(crate) fn read_sections(data: &[u8]) -> (r: Option<Vec<ImageSection>>)
    ensures
        match r {
            Some(sections) => file_sections(data@) == Some(section_views(sections@)),
            None => file_sections(data@) is None,
        },
{
    let file = object::File::parse(data).ok()?;
    let sections = file.sections().map(|s| ImageSection {
        address: s.address(),
        data: s.data().ok().map(|data| data.to_vec()),
    });
    Some(sections.collect())
}

/// The address of the section that `object::File::section_by_name` finds.
pub uninterp spec fn file_section_address(data: Seq<u8>, name: Seq<char>) -> Option<u64>;

/// `ObjectSection::address`: the address of a section, under the name of the result.
#[verifier::external_body]
pub(crate) fn read_section_address(data: &[u8], name: &str) -> (r: Option<u64>)
    ensures
        r == file_section_address(data@, name@),
{
    Some(object::File::parse(data).ok()?.section_by_name(name)?.address())
}

/// The debug text of what `object::File::format` gives; nothing where the file cannot be parsed.
pub uninterp spec fn file_format_name(data: Seq<u8>) -> Option<Seq<char>>;

/// `Debug` of `object::BinaryFormat`: the text of the format of the file, under the name of the
/// result.
#[verifier::external_body]
pub(crate) fn read_format_name(data: &[u8]) -> (r: Option<String>)
    ensures
        match r {
            Some(name) => file_format_name(data@) == Some(name@),
            None => file_format_name(data@) is None,
        },
{
    Some(format!("{:?}", object::File::parse(data).ok()?.format()))
}

/// The debug text of what `object::File::architecture` gives; nothing where the file cannot be
/// parsed.
pub uninterp spec fn file_arch_name(data: Seq<u8>) -> Option<Seq<char>>;

/// `Debug` of `object::Architecture`: the text of the architecture of the file, under the name of the
/// result.
#[verifier::external_body]
pub(crate) fn read_arch_name(data: &[u8]) -> (r: Option<String>)
    ensures
        match r {
            Some(name) => file_arch_name(data@) == Some(name@),
            None => file_arch_name(data@) is None,
        },
{
    Some(format!("{:?}", object::File::parse(data).ok()?.architecture()))
}

/// The dynamic relocations as plain values.
pub open spec fn relocation_views(relocations: Seq<(u64, Option<String>)>) -> Seq<
    (u64, Option<Seq<char>>),
> {
    Seq::new(
        relocations.len(),
        |i: int|
            (
                relocations[i].0,
                match relocations[i].1 {
                    Some(name) => Some(name@),
                    None => None,
                },
            ),
    )
}

/// The relocations that `object::File::dynamic_relocations` lists: the address of each and the name
/// of the symbol that `object::File::symbol_by_index` gives for the index that it is against, where
/// it is against a symbol that is found and has a name. No relocation where the file has no dynamic
/// ones; nothing where it cannot be parsed.
pub uninterp spec fn file_dynamic_relocations(data: Seq<u8>) -> Option<
    Seq<(u64, Option<Seq<char>>)>,
>;

/// `object::File::dynamic_relocations`: the dynamic relocations of the file, under the name of the
/// result.
#[verifier::external_body]
pub(crate) fn read_dynamic_relocations(data: &[u8]) -> (r: Option<Vec<(u64, Option<String>)>>)
    ensures
        match r {
            Some(relocations) => file_dynamic_relocations(data@) == Some(
                relocation_views(relocations@),
            ),
            None => file_dynamic_relocations(data@) is None,
        },
{
    let file = object::File::parse(data).ok()?;
    let name = |relocation: object::Relocation| match relocation.target() {
        object::RelocationTarget::Symbol(index) => {
            Some(file.symbol_by_index(index).ok()?.name().ok()?.to_string())
        }
        _ => None,
    };
    let relocations = file.dynamic_relocations().into_iter().flatten();
    Some(relocations.map(|(address, relocation)| (address, name(relocation))).collect())
}

} // verus!
