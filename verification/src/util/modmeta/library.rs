//! The metadata of a library.

use std::ops::Range;
use vstd::prelude::*;
use crate::text::{lower_string, lower_text, string_from_chars, to_chars};
use crate::util::macho::image::{bindings_between, macho_image, named_locations, MachOImage};
use crate::util::msvc::imports::import_slots;
use crate::util::msvc::{image_of, Image, MemberPointerDecoder};
use crate::util::objfile::{
    file_arch_name, file_dynamic_relocations, file_format_name, file_kind, file_section,
    file_section_address, read_arch_name, read_dynamic_relocations, read_format_name, read_kind,
    read_section_address, read_section_data, relocation_views, ImageKind,
};
use super::record::{Lookup, LookupView, MetaError};
use super::section::{
    export_views, hook_views, import_views, parse_section, section_records, MetaFile, Records,
    RecordsView,
};

verus! {

/// The names of the relocations from `i` on that stand in a range.
pub open spec fn relocated_between(
    relocations: Seq<(u64, Option<Seq<char>>)>,
    start: u64,
    end: u64,
    n: int,
) -> Seq<(u64, Seq<char>)>
    decreases n,
{
    if n <= 0 {
        Seq::empty()
    } else {
        let before = relocated_between(relocations, start, end, n - 1);
        let (address, name) = relocations[n - 1];
        match name {
            Some(name) => if start <= address < end && name.len() > 0 {
                before.push((address, name))
            } else {
                before
            },
            None => before,
        }
    }
}

/// The names of the relocations that stand in a range.
pub fn select_relocated(relocations: &[(u64, Option<String>)], start: u64, end: u64) -> (r: Vec<
    (u64, String),
>)
    ensures
        named_locations(r@) == relocated_between(
            relocation_views(relocations@),
            start,
            end,
            relocations@.len() as int,
        ),
{
    let ghost all = relocation_views(relocations@);
    let mut out: Vec<(u64, String)> = Vec::new();
    let mut i: usize = 0;
    assert(named_locations(out@) =~= Seq::empty());
    while i < relocations.len()
        invariant
            i <= relocations@.len(),
            all == relocation_views(relocations@),
            named_locations(out@) == relocated_between(all, start, end, i as int),
        decreases relocations@.len() - i,
    {
        let address: u64 = relocations[i].0;
        assert(all[i as int].0 == address);
        match &relocations[i].1 {
            Some(name) => {
                assert(all[i as int].1 == Some(name@));
                let chars: Vec<char> = to_chars(name);
                if start <= address && address < end && chars.len() > 0 {
                    let ghost before = named_locations(out@);
                    out.push((address, string_from_chars(&chars)));
                    assert(named_locations(out@) =~= before.push((address, name@)));
                }
            },
            None => {
                assert(all[i as int].1 is None);
            },
        }
        i = i + 1;
    }
    out
}

/// The names that the loader binds in a range of a library.
pub open spec fn fixups_of(data: Seq<u8>, start: u64, end: u64) -> Result<
    Seq<(u64, Seq<char>)>,
    MetaError,
> {
    match file_kind(data) {
        Some(ImageKind::Elf64) => match file_dynamic_relocations(data) {
            None => Err(MetaError::BadObject),
            Some(relocations) => Ok(
                relocated_between(relocations, start, end, relocations.len() as int),
            ),
        },
        Some(ImageKind::MachO64) => match macho_image(data) {
            Err(e) => Err(MetaError::BadFixups(e)),
            Ok(image) => match image.all_fixups() {
                Err(e) => Err(MetaError::BadFixups(e)),
                Ok(fixups) => Ok(bindings_between(fixups, start, end)),
            },
        },
        _ => Ok(Seq::empty()),
    }
}

/// Collect the names that the loader binds in a range of a library.
pub fn collect_fixups(data: &[u8], start: u64, end: u64) -> (r: Result<
    Vec<(u64, String)>,
    MetaError,
>)
    ensures
        match r {
            Ok(binds) => fixups_of(data@, start, end) == Ok::<Seq<(u64, Seq<char>)>, MetaError>(
                named_locations(binds@),
            ),
            Err(e) => fixups_of(data@, start, end) == Err::<Seq<(u64, Seq<char>)>, MetaError>(e),
        },
{
    match read_kind(data) {
        Some(ImageKind::Elf64) => match read_dynamic_relocations(data) {
            None => Err(MetaError::BadObject),
            Some(relocations) => {
                assert(relocation_views(relocations@).len() == relocations@.len());
                Ok(select_relocated(&relocations, start, end))
            },
        },
        Some(ImageKind::MachO64) => {
            let image: MachOImage = match MachOImage::parse(data) {
                Ok(image) => image,
                Err(e) => return Err(MetaError::BadFixups(e)),
            };
            let range: Range<u64> = Range { start, end };
            match image.bindings_in(&range) {
                Ok(binds) => Ok(binds),
                Err(e) => Err(MetaError::BadFixups(e)),
            }
        },
        _ => {
            let binds: Vec<(u64, String)> = Vec::new();
            assert(named_locations(binds@) =~= Seq::empty());
            Ok(binds)
        },
    }
}

/// The name of the metadata section of a library: `modmeta`, or else `__modmeta`.
pub open spec fn section_name(data: Seq<u8>) -> Seq<char> {
    if file_section(data, "modmeta"@) is Some {
        "modmeta"@
    } else {
        "__modmeta"@
    }
}

/// What a library's metadata says.
pub struct MetaView {
    pub format: Seq<char>,
    pub arch: Seq<char>,
    pub records: RecordsView,
}

/// What a metadata file says, as a plain value.
pub open spec fn meta_view(meta: MetaFile) -> MetaView {
    MetaView {
        format: meta.format@,
        arch: meta.arch@,
        records: RecordsView {
            headers: 1,
            abi_version: meta.abi_version,
            imports: import_views(meta.imports@),
            exports: export_views(meta.exports@),
            hooks: hook_views(meta.hooks@),
        },
    }
}

/// The import information of a library; none where it cannot be told.
pub open spec fn slots_or_none(data: Seq<u8>) -> Seq<(u64, Seq<char>)> {
    match import_slots(data) {
        Ok(slots) => slots,
        Err(_) => Seq::empty(),
    }
}

/// The static mod metadata embedded in a library.
pub open spec fn library_meta(data: Seq<u8>) -> Result<MetaView, MetaError> {
    let name = section_name(data);
    match (image_of(data), file_format_name(data), file_arch_name(data)) {
        (Some(image), Some(format), Some(arch)) => match (
            file_section(data, name),
            file_section_address(data, name),
        ) {
            (None, _) => Err(MetaError::NoSection),
            (_, None) => Err(MetaError::NoSection),
            (Some(None), _) => Err(MetaError::BadSection),
            (Some(Some(section)), Some(address)) => if address + section.len() > u64::MAX {
                Err(MetaError::SectionRange)
            } else {
                match fixups_of(data, address, (address + section.len()) as u64) {
                    Err(e) => Err(e),
                    Ok(binds) => match section_records(
                        section,
                        LookupView { binds, image, slots: slots_or_none(data) },
                        address as int,
                    ) {
                        Err(e) => Err(e),
                        Ok(records) => Ok(
                            MetaView {
                                format: lower_text(format),
                                arch: lower_text(arch),
                                records,
                            },
                        ),
                    },
                }
            },
        },
        _ => Err(MetaError::BadObject),
    }
}

/// Parse the static mod metadata embedded in one native entry library.
///
/// This reads object-file structures only; it never loads or executes the library.
pub fn parse_library(data: &[u8]) -> (r: Result<MetaFile, MetaError>)
    ensures
        match r {
            Ok(meta) => library_meta(data@) == Ok::<MetaView, MetaError>(meta_view(meta)),
            Err(e) => library_meta(data@) == Err::<MetaView, MetaError>(e),
        },
{
    let image: Image = match Image::read(data) {
        Some(image) => image,
        None => return Err(MetaError::BadObject),
    };
    let (format, arch) = match (read_format_name(data), read_arch_name(data)) {
        (Some(format), Some(arch)) => (format, arch),
        _ => return Err(MetaError::BadObject),
    };
    let name: &str = if read_section_data(data, "modmeta").is_some() {
        "modmeta"
    } else {
        "__modmeta"
    };
    let section: Vec<u8> = match (read_section_data(data, name), read_section_address(data, name)) {
        (None, _) => return Err(MetaError::NoSection),
        (_, None) => return Err(MetaError::NoSection),
        (Some(None), _) => return Err(MetaError::BadSection),
        (Some(Some(section)), Some(_)) => section,
    };
    let address: u64 = match read_section_address(data, name) {
        Some(address) => address,
        None => return Err(MetaError::NoSection),
    };
    let end: u64 = match address.checked_add(section.len() as u64) {
        Some(end) => end,
        None => return Err(MetaError::SectionRange),
    };
    let binds: Vec<(u64, String)> = collect_fixups(data, address, end)?;
    let decoder: MemberPointerDecoder = match MemberPointerDecoder::new(data) {
        Ok(decoder) => decoder,
        Err(_) => MemberPointerDecoder::default(),
    };
    assert(decoder.slots() =~= slots_or_none(data@));
    let lookup: Lookup = Lookup { binds, image, decoder };
    let records: Records = parse_section(&section, &lookup, address)?;
    Ok(
        MetaFile {
            format: lower_string(&format),
            arch: lower_string(&arch),
            abi_version: records.abi_version,
            imports: records.imports,
            exports: records.exports,
            hooks: records.hooks,
        },
    )
}

} // verus!
