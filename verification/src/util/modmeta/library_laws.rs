//! Where the metadata of a library and the names that it binds come from.

use vstd::prelude::*;
use crate::util::macho::image::macho_image;
use crate::util::macho::image_laws::{binds_between, law_bindings_are_those_in_the_range};
use crate::util::msvc::image_of;
use crate::util::objfile::{
    file_dynamic_relocations, file_kind, file_section, file_section_address, ImageKind,
};
use super::library::{fixups_of, library_meta, relocated_between, slots_or_none};
use super::record::{LookupView, MetaError};
use super::section::{section_records, RecordsView};

verus! {

/// Whether a relocation names a symbol inside a range.
pub open spec fn is_named_between(
    relocation: (u64, Option<Seq<char>>),
    start: u64,
    end: u64,
    name: Seq<char>,
) -> bool {
    start <= relocation.0 < end && relocation.1 == Some(name) && name.len() > 0
}

/// The relocations that count are those inside the range that name a symbol.
pub proof fn law_relocations_are_those_in_the_range(
    relocations: Seq<(u64, Option<Seq<char>>)>,
    start: u64,
    end: u64,
    n: int,
    address: u64,
    name: Seq<char>,
)
    requires
        0 <= n <= relocations.len(),
    ensures
        relocated_between(relocations, start, end, n).contains((address, name)) <==> exists|i: int|
            0 <= i < n && relocations[i].0 == address && #[trigger] is_named_between(
                relocations[i],
                start,
                end,
                name,
            ),
    decreases n,
{
    if n > 0 {
        let before = relocated_between(relocations, start, end, n - 1);
        let all = relocated_between(relocations, start, end, n);
        law_relocations_are_those_in_the_range(relocations, start, end, n - 1, address, name);
        if all.contains((address, name)) {
            let k = choose|k: int| 0 <= k < all.len() && all[k] == (address, name);
            if k < before.len() {
                assert(before[k] == (address, name));
            } else {
                assert(is_named_between(relocations[n - 1], start, end, name));
            }
        }
        if exists|i: int|
            0 <= i < n && relocations[i].0 == address && #[trigger] is_named_between(
                relocations[i],
                start,
                end,
                name,
            ) {
            let i = choose|i: int|
                0 <= i < n && relocations[i].0 == address && #[trigger] is_named_between(
                    relocations[i],
                    start,
                    end,
                    name,
                );
            if i < n - 1 {
                let k = choose|k: int| 0 <= k < before.len() && before[k] == (address, name);
                assert(all[k] == (address, name));
            } else {
                assert(all[before.len() as int] == (address, name));
            }
        }
    }
}

/// The names that a library binds in a range are those of its dynamic relocations there, in an ELF
/// file, or those of its fixups there, in a Mach-O file. Other files bind none.
pub proof fn law_names_are_bound_by_the_loader(
    data: Seq<u8>,
    start: u64,
    end: u64,
    address: u64,
    name: Seq<char>,
)
    requires
        fixups_of(data, start, end) is Ok,
    ensures
        ({
            let bound = fixups_of(data, start, end)->Ok_0.contains((address, name));
            &&& file_kind(data) == Some(ImageKind::Elf64) ==> (bound <==> exists|i: int|
                0 <= i < file_dynamic_relocations(data)->Some_0.len() && file_dynamic_relocations(
                    data,
                )->Some_0[i].0 == address && #[trigger] is_named_between(
                    file_dynamic_relocations(data)->Some_0[i],
                    start,
                    end,
                    name,
                ))
            &&& file_kind(data) == Some(ImageKind::MachO64) ==> (bound <==> exists|i: int|
                0 <= i < macho_image(data)->Ok_0.all_fixups()->Ok_0.len() && macho_image(
                    data,
                )->Ok_0.all_fixups()->Ok_0[i].location == address && #[trigger] binds_between(
                    macho_image(data)->Ok_0.all_fixups()->Ok_0[i],
                    start,
                    end,
                    name,
                ))
            &&& file_kind(data) != Some(ImageKind::Elf64) && file_kind(data) != Some(
                ImageKind::MachO64,
            ) ==> !bound
        }),
{
    if file_kind(data) == Some(ImageKind::Elf64) {
        let relocations = file_dynamic_relocations(data)->Some_0;
        law_relocations_are_those_in_the_range(
            relocations,
            start,
            end,
            relocations.len() as int,
            address,
            name,
        );
    } else if file_kind(data) == Some(ImageKind::MachO64) {
        law_bindings_are_those_in_the_range(
            macho_image(data)->Ok_0.all_fixups()->Ok_0,
            start,
            end,
            address,
            name,
        );
    }
}

/// What a library says is what the records of its section `modmeta` say, or else of `__modmeta`, at the
/// address of that section and with the names that are bound in it.
pub proof fn law_library_says_what_its_section_says(data: Seq<u8>)
    requires
        library_meta(data) is Ok,
    ensures
        ({
            let name = if file_section(data, "modmeta"@) is Some {
                "modmeta"@
            } else {
                "__modmeta"@
            };
            let address = file_section_address(data, name)->Some_0;
            file_section(data, name) matches Some(Some(section)) && {
                &&& address + section.len() <= u64::MAX
                &&& fixups_of(data, address, (address + section.len()) as u64) matches Ok(binds)
                    && section_records(
                    section,
                    LookupView { binds, image: image_of(data)->Some_0, slots: slots_or_none(data) },
                    address as int,
                ) == Ok::<RecordsView, MetaError>(library_meta(data)->Ok_0.records)
            }
        }),
{
}

} // verus!
