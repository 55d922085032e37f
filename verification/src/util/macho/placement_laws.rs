//! Where inserted segments stand, and what the load commands say of them and of `__LINKEDIT`.

use vstd::prelude::*;
use vstd::utf8::*;
use crate::bytes::{
    group_field_len, le32, le64, lemma_align_int, lemma_u32_at_le, lemma_u64_at_le, u32_at, u64_at,
};
use super::format::{aligned, padded_name};
use super::insert::{page_size, InsertedSegment, SectionModel, SegmentModel};
use super::laws::linkedit_of;
use super::placement::{
    lemma_placed_before, placed_before, placed_size, placements_fit, section_fits, sections_fit,
};
use super::relayout::{moved_linkedit, section_entry, with_counts, with_segments};

verus! {

proof fn lemma_fit(specs: Seq<SegmentModel>, from: int, page: u64, vmaddr: u64, fileoff: u64, i: int)
    requires
        0 <= from <= i < specs.len(),
        placements_fit(specs, from, page, vmaddr, fileoff) is Ok,
    ensures
        specs[i].data.len() > 0,
        vmaddr + placed_before(specs, page, i) <= u64::MAX,
        fileoff + placed_before(specs, page, i) <= u64::MAX,
        align_fits(specs[i], page),
        sections_fit(
            specs[i].sections,
            0,
            specs[i].data.len() as int,
            vmaddr + placed_before(specs, page, i),
            fileoff + placed_before(specs, page, i),
        ) is Ok,
    decreases i - from,
{
    if from < i {
        lemma_fit(specs, from + 1, page, vmaddr, fileoff, i);
    }
}

spec fn align_fits(spec: SegmentModel, page: u64) -> bool {
    placed_size(spec, page) <= u64::MAX
}

/// Inserted segments begin where `__LINKEDIT` began, each behind the one before it, in memory as in the
/// file. Each takes as many whole pages as its data needs.
pub proof fn law_inserted_segments_follow_each_other(
    data: Seq<u8>,
    specs: Seq<SegmentModel>,
    i: int,
)
    requires
        with_segments(data, specs) is Ok,
        0 <= i < specs.len(),
    ensures
        ({
            let places = with_segments(data, specs)->Ok_0.1;
            let linkedit = linkedit_of(data, specs);
            let page: int = if u32_at(data, 4) == 0x0100_0007 {
                0x1000
            } else {
                0x4000
            };
            let len = specs[i].data.len();
            &&& places.len() == specs.len()
            &&& places[0].vmaddr == u64_at(data, linkedit + 24)
            &&& places[0].fileoff == u64_at(data, linkedit + 40)
            &&& i + 1 < specs.len() ==> places[i + 1].vmaddr == places[i].vmaddr + places[i].filesize
                && places[i + 1].fileoff == places[i].fileoff + places[i].filesize
            &&& 0 < len <= places[i].filesize < len + page
            &&& places[i].filesize as int % page == 0
        }),
{
    let linkedit = linkedit_of(data, specs);
    let page = page_size(data);
    let (vmaddr, fileoff) = (u64_at(data, linkedit + 24), u64_at(data, linkedit + 40));
    lemma_fit(specs, 0, page, vmaddr, fileoff, i);
    lemma_align_int(specs[i].data.len() as int, page as int);
    lemma_placed_before(specs, page, i, i);
    assert(placed_before(specs, page, 0) == 0);
    if i + 1 < specs.len() {
        lemma_fit(specs, 0, page, vmaddr, fileoff, i + 1);
    }
}

proof fn lemma_section_fits(
    sections: Seq<SectionModel>,
    from: int,
    data_len: int,
    vmaddr: int,
    fileoff: int,
    k: int,
)
    requires
        0 <= from <= k < sections.len(),
        sections_fit(sections, from, data_len, vmaddr, fileoff) is Ok,
    ensures
        section_fits(sections[k], data_len, vmaddr, fileoff) is Ok,
    decreases k - from,
{
    if from < k {
        lemma_section_fits(sections, from + 1, data_len, vmaddr, fileoff, k);
    }
}

/// Every section of an inserted segment lies in the segment's data, and is aligned in memory and in the
/// file.
pub proof fn law_sections_lie_in_their_segments(
    data: Seq<u8>,
    specs: Seq<SegmentModel>,
    i: int,
    k: int,
)
    requires
        with_segments(data, specs) is Ok,
        0 <= i < specs.len(),
        0 <= k < specs[i].sections.len(),
    ensures
        ({
            let place = with_segments(data, specs)->Ok_0.1[i];
            let section = specs[i].sections[k];
            let alignment = (1u64 << section.align) as int;
            &&& section.align < 64
            &&& section.offset + section.size <= specs[i].data.len()
            &&& (place.vmaddr + section.offset) % alignment == 0
            &&& (place.fileoff + section.offset) % alignment == 0
        }),
{
    let linkedit = linkedit_of(data, specs);
    let page = page_size(data);
    let (vmaddr, fileoff) = (u64_at(data, linkedit + 24), u64_at(data, linkedit + 40));
    let before = placed_before(specs, page, i);
    lemma_fit(specs, 0, page, vmaddr, fileoff, i);
    lemma_placed_before(specs, page, i, i);
    lemma_section_fits(
        specs[i].sections,
        0,
        specs[i].data.len() as int,
        vmaddr + before,
        fileoff + before,
        k,
    );
}

/// The entry of a section is eighty bytes: its name, that of its segment, where it is in memory and how
/// large, where it is in the file, its alignment, no relocations, and its flags.
pub proof fn law_section_entry(
    section: SectionModel,
    segment_name: Seq<u8>,
    place: InsertedSegment,
    i: int,
)
    requires
        segment_name.len() == 16,
        section_entry(section, segment_name, place) is Ok,
        0 <= i < 16,
    ensures
        ({
            let entry = section_entry(section, segment_name, place)->Ok_0;
            let name = encode_utf8(section.name);
            &&& entry.len() == 80
            &&& name.len() <= 16
            &&& entry[i] == if i < name.len() {
                name[i]
            } else {
                0
            }
            &&& entry.subrange(16, 32) == segment_name
            &&& u64_at(entry, 32) == place.vmaddr + section.offset
            &&& u64_at(entry, 40) == section.size
            &&& u32_at(entry, 48) == place.fileoff + section.offset
            &&& u32_at(entry, 52) == section.align
            &&& u32_at(entry, 56) == 0
            &&& u32_at(entry, 60) == 0
            &&& u32_at(entry, 64) == section.flags
            &&& u32_at(entry, 68) == 0
            &&& u32_at(entry, 72) == 0
            &&& u32_at(entry, 76) == 0
        }),
{
    broadcast use group_field_len;

    let entry = section_entry(section, segment_name, place)->Ok_0;
    let name = padded_name(section.name)->Ok_0;
    assert(name.len() == 16);
    assert(entry.subrange(16, 32) =~= segment_name);
    let address = (place.vmaddr + section.offset) as u64;
    let offset = (place.fileoff + section.offset) as u32;
    assert(entry.subrange(32, 40) =~= le64(address));
    lemma_u64_at_le(entry, 32, address);
    assert(entry.subrange(40, 48) =~= le64(section.size));
    lemma_u64_at_le(entry, 40, section.size);
    assert(entry.subrange(48, 52) =~= le32(offset));
    lemma_u32_at_le(entry, 48, offset);
    assert(entry.subrange(52, 56) =~= le32(section.align));
    lemma_u32_at_le(entry, 52, section.align);
    assert(entry.subrange(56, 60) =~= le32(0));
    lemma_u32_at_le(entry, 56, 0);
    assert(entry.subrange(60, 64) =~= le32(0));
    lemma_u32_at_le(entry, 60, 0);
    assert(entry.subrange(64, 68) =~= le32(section.flags));
    lemma_u32_at_le(entry, 64, section.flags);
    assert(entry.subrange(68, 72) =~= le32(0));
    lemma_u32_at_le(entry, 68, 0);
    assert(entry.subrange(72, 76) =~= le32(0));
    lemma_u32_at_le(entry, 72, 0);
    assert(entry.subrange(76, 80) =~= le32(0));
    lemma_u32_at_le(entry, 76, 0);
}

/// The command of `__LINKEDIT` moves in memory and in the file by the same distance, grows in the file,
/// and never shrinks in memory, where it has room for all its contents. Nothing else changes.
pub proof fn law_linkedit_command_moves(
    data: Seq<u8>,
    linkedit: int,
    delta: int,
    growth: int,
    i: int,
)
    requires
        0 <= linkedit,
        linkedit + 72 <= data.len(),
        0 <= delta,
        0 <= growth,
        0 <= i < data.len(),
        moved_linkedit(data, linkedit, delta, growth) is Ok,
    ensures
        ({
            let out = moved_linkedit(data, linkedit, delta, growth)->Ok_0;
            &&& out.len() == data.len()
            &&& u64_at(out, linkedit + 24) == u64_at(data, linkedit + 24) + delta
            &&& u64_at(out, linkedit + 40) == u64_at(data, linkedit + 40) + delta
            &&& u64_at(out, linkedit + 48) == u64_at(data, linkedit + 48) + growth
            &&& u64_at(out, linkedit + 32) >= u64_at(data, linkedit + 32)
            &&& u64_at(out, linkedit + 32) >= u64_at(out, linkedit + 48)
            &&& u64_at(out, linkedit + 32) == u64_at(data, linkedit + 32) || u64_at(
                out,
                linkedit + 32,
            ) < u64_at(out, linkedit + 48) + page_size(data)
            &&& !(linkedit + 24 <= i < linkedit + 56) ==> out[i] == data[i]
        }),
{
    broadcast use group_field_len;

    let out = moved_linkedit(data, linkedit, delta, growth)->Ok_0;
    let vmaddr = (u64_at(data, linkedit + 24) + delta) as u64;
    let fileoff = (u64_at(data, linkedit + 40) + delta) as u64;
    let filesize = (u64_at(data, linkedit + 48) + growth) as u64;
    lemma_align_int(filesize as int, page_size(data) as int);
    let in_pages = aligned(filesize, page_size(data))->Ok_0;
    let old_vmsize = u64_at(data, linkedit + 32);
    let vmsize = if old_vmsize > in_pages {
        old_vmsize
    } else {
        in_pages
    };
    assert(out.subrange(linkedit + 24, linkedit + 32) =~= le64(vmaddr));
    lemma_u64_at_le(out, linkedit + 24, vmaddr);
    assert(out.subrange(linkedit + 32, linkedit + 40) =~= le64(vmsize));
    lemma_u64_at_le(out, linkedit + 32, vmsize);
    assert(out.subrange(linkedit + 40, linkedit + 48) =~= le64(fileoff));
    lemma_u64_at_le(out, linkedit + 40, fileoff);
    assert(out.subrange(linkedit + 48, linkedit + 56) =~= le64(filesize));
    lemma_u64_at_le(out, linkedit + 48, filesize);
}

/// The header counts the new load commands and their bytes, and is else what it was.
pub proof fn law_header_counts_new_commands(data: Seq<u8>, add: int, size: int, i: int)
    requires
        24 <= data.len(),
        0 <= add,
        0 <= size,
        0 <= i < data.len(),
        with_counts(data, add, size) is Ok,
    ensures
        ({
            let out = with_counts(data, add, size)->Ok_0;
            &&& out.len() == data.len()
            &&& u32_at(out, 16) == u32_at(data, 16) + add
            &&& u32_at(out, 20) == u32_at(data, 20) + size
            &&& !(16 <= i < 24) ==> out[i] == data[i]
        }),
{
    broadcast use group_field_len;

    let out = with_counts(data, add, size)->Ok_0;
    let count = (u32_at(data, 16) + add) as u32;
    let bytes = (u32_at(data, 20) + size) as u32;
    assert(out.subrange(16, 20) =~= le32(count));
    lemma_u32_at_le(out, 16, count);
    assert(out.subrange(20, 24) =~= le32(bytes));
    lemma_u32_at_le(out, 20, bytes);
}

} // verus!
