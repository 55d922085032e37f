//! The image with segments inserted in front of `__LINKEDIT`.

use vstd::prelude::*;
use crate::bytes::{
    get_u32, get_u64, group_field_len, le32, le64, overlay, push_bytes, push_u32, push_u64,
    put_u32, put_u64, u32_at, u64_at,
};
use super::chained::{grow_chained_fixups, grown_fixups};
use super::format::{
    align_up, aligned, fixed_name, padded_name, MachOError, LC_SEGMENT_64, MH_MAGIC_64,
};
use super::insert::{
    check_room, commands_lie, commands_size, count_commands, find_page_size, insert_scan, names_fit,
    page_size, room_for_commands, scan_commands, scan_start, segment_command_size, stored_name,
    stored_names, section_models, segment_models, InsertResult, InsertScan, InsertedSegment,
    SectionModel, SectionSpec, SegmentModel, SegmentSpec,
};
use super::placement::{
    place_segments, placed_before, placed_bytes, placements, placements_fit, push_placed,
};
use super::shift::{shift_commands, shifted_commands, OffsetShift};

verus! {

/// The entry of a section, or why it cannot be written.
pub open spec fn section_entry(
    section: SectionModel,
    segment_name: Seq<u8>,
    place: InsertedSegment,
) -> Result<Seq<u8>, MachOError> {
    if place.vmaddr + section.offset > u64::MAX || place.fileoff + section.offset > u64::MAX {
        Err(MachOError::SectionOverflow)
    } else {
        match padded_name(section.name) {
            Err(e) => Err(e),
            Ok(name) => if place.fileoff + section.offset > u32::MAX {
                Err(MachOError::SectionOffsetTooLarge)
            } else {
                Ok(
                    name + segment_name + le64((place.vmaddr + section.offset) as u64) + le64(
                        section.size,
                    ) + le32((place.fileoff + section.offset) as u32) + le32(section.align) + le32(
                        0,
                    ) + le32(0) + le32(section.flags) + le32(0) + le32(0) + le32(0),
                )
            },
        }
    }
}

/// The entries of the sections from `from` on.
pub open spec fn section_entries(
    sections: Seq<SectionModel>,
    from: int,
    segment_name: Seq<u8>,
    place: InsertedSegment,
) -> Result<Seq<u8>, MachOError>
    decreases sections.len() - from,
{
    if from >= sections.len() {
        Ok(Seq::empty())
    } else {
        match section_entry(sections[from], segment_name, place) {
            Err(e) => Err(e),
            Ok(entry) => match section_entries(sections, from + 1, segment_name, place) {
                Err(e) => Err(e),
                Ok(rest) => Ok(entry + rest),
            },
        }
    }
}

/// The segment command without its sections.
pub open spec fn segment_entry(spec: SegmentModel, place: InsertedSegment) -> Seq<u8> {
    le32(LC_SEGMENT_64) + le32(segment_command_size(spec) as u32) + stored_name(spec) + le64(
        place.vmaddr,
    ) + le64(place.filesize) + le64(place.fileoff) + le64(place.filesize) + le32(spec.max_prot)
        + le32(spec.init_prot) + le32(spec.sections.len() as u32) + le32(0)
}

/// The segment commands of the segments from `from` on.
pub open spec fn segment_commands(
    specs: Seq<SegmentModel>,
    places: Seq<InsertedSegment>,
    from: int,
) -> Result<Seq<u8>, MachOError>
    decreases specs.len() - from,
{
    if from >= specs.len() {
        Ok(Seq::empty())
    } else if segment_command_size(specs[from]) > u32::MAX {
        Err(MachOError::SegmentCommandTooLarge)
    } else {
        match section_entries(
            specs[from].sections,
            0,
            stored_name(specs[from]),
            places[from],
        ) {
            Err(e) => Err(e),
            Ok(sections) => match segment_commands(specs, places, from + 1) {
                Err(e) => Err(e),
                Ok(rest) => Ok(segment_entry(specs[from], places[from]) + sections + rest),
            },
        }
    }
}

/// The `__LINKEDIT` command at `linkedit` after the segment moved by `delta` and grew by `growth`.
pub open spec fn moved_linkedit(data: Seq<u8>, linkedit: int, delta: int, growth: int) -> Result<
    Seq<u8>,
    MachOError,
> {
    let vmaddr = u64_at(data, linkedit + 24) + delta;
    let fileoff = u64_at(data, linkedit + 40) + delta;
    let filesize = u64_at(data, linkedit + 48) + growth;
    if vmaddr > u64::MAX || fileoff > u64::MAX || filesize > u64::MAX {
        Err(MachOError::LinkeditOverflow)
    } else {
        match aligned(filesize as u64, page_size(data)) {
            Err(e) => Err(e),
            Ok(in_pages) => {
                let old_vmsize = u64_at(data, linkedit + 32);
                let vmsize = if old_vmsize > in_pages {
                    old_vmsize
                } else {
                    in_pages
                };
                Ok(
                    overlay(
                        data,
                        linkedit + 24,
                        le64(vmaddr as u64) + le64(vmsize) + le64(fileoff as u64) + le64(
                            filesize as u64,
                        ),
                    ),
                )
            },
        }
    }
}

/// The image with `commands` in front of the command at `linkedit`; the zero bytes behind the
/// commands give the room.
pub open spec fn with_commands(
    data: Seq<u8>,
    linkedit: int,
    cmds_end: int,
    commands: Seq<u8>,
) -> Seq<u8> {
    data.subrange(0, linkedit) + commands + data.subrange(linkedit, cmds_end) + data.subrange(
        cmds_end + commands.len(),
        data.len() as int,
    )
}

/// The image with the counts of its header grown.
pub open spec fn with_counts(data: Seq<u8>, add: int, lc_size: int) -> Result<
    Seq<u8>,
    MachOError,
> {
    if u32_at(data, 16) + add > u32::MAX {
        Err(MachOError::CommandCountOverflow)
    } else if u32_at(data, 20) + lc_size > u32::MAX {
        Err(MachOError::CommandSizeOverflow)
    } else {
        Ok(
            overlay(
                overlay(data, 16, le32((u32_at(data, 16) + add) as u32)),
                20,
                le32((u32_at(data, 20) + lc_size) as u32),
            ),
        )
    }
}

/// The image with all its load commands rewritten: offsets shifted, `__LINKEDIT` moved, the new
/// segment commands in front of it. Nothing behind the commands has moved yet.
pub open spec fn rewritten_commands(
    data: Seq<u8>,
    specs: Seq<SegmentModel>,
    linkedit: int,
    shift: OffsetShift,
) -> Result<Seq<u8>, MachOError> {
    let places = placements(
        specs,
        page_size(data),
        u64_at(data, linkedit + 24),
        u64_at(data, linkedit + 40),
    );
    match shifted_commands(data, 32, u32_at(data, 16) as int, shift) {
        Err(e) => Err(e),
        Ok(shifted) => match moved_linkedit(
            shifted,
            linkedit,
            shift.delta as int,
            shift.growth as int,
        ) {
            Err(e) => Err(e),
            Ok(moved) => match segment_commands(specs, places, 0) {
                Err(e) => Err(e),
                Ok(commands) => with_counts(
                    with_commands(moved, linkedit, 32 + u32_at(data, 20), commands),
                    specs.len() as int,
                    commands_size(specs, 0),
                ),
            },
        },
    }
}

/// The chained fixups of the image: where they begin and end and what they become.
#[verifier::ext_equal]
pub struct FixupsModel {
    pub start: int,
    pub end: int,
    pub grown: Seq<u8>,
    pub growth: int,
}

/// The grown chained fixups of the image, where it has any.
pub open spec fn grown_in_image(data: Seq<u8>, specs: Seq<SegmentModel>, found: InsertScan) -> Result<
    Option<FixupsModel>,
    MachOError,
> {
    match found.fixups {
        None => Ok(None),
        Some(command) => {
            let start = u32_at(data, command + 8) as int;
            let end = start + u32_at(data, command + 12);
            if end > usize::MAX {
                Err(MachOError::FixupsRangeOverflow)
            } else if end > data.len() {
                Err(MachOError::FixupsOutsideFile)
            } else {
                match grown_fixups(
                    data.subrange(start, end),
                    found.linkedit_index as int,
                    specs.len() as int,
                    found.segment_count as int,
                ) {
                    Err(e) => Err(e),
                    Ok((grown, growth)) => Ok(Some(FixupsModel { start, end, grown, growth })),
                }
            }
        },
    }
}

/// How the offsets into `__LINKEDIT` move.
pub open spec fn offset_shift(delta: int, fixups: Option<FixupsModel>) -> OffsetShift {
    match fixups {
        None => OffsetShift { delta: delta as u64, fixups_end: u64::MAX, growth: 0 },
        Some(f) => OffsetShift {
            delta: delta as u64,
            fixups_end: f.end as u64,
            growth: f.growth as u64,
        },
    }
}

/// The whole file: everything before `__LINKEDIT`, the new segments, and the contents of
/// `__LINKEDIT` with the grown fixups.
pub open spec fn assembled(
    rewritten: Seq<u8>,
    specs: Seq<SegmentModel>,
    page: u64,
    fileoff: u64,
    fixups: Option<FixupsModel>,
) -> Result<Seq<u8>, MachOError> {
    let delta = placed_before(specs, page, specs.len() as int);
    let growth = match fixups {
        None => 0,
        Some(f) => f.growth,
    };
    let len = rewritten.len() as int;
    if len + delta + growth > usize::MAX {
        Err(MachOError::OutputOverflow)
    } else if fileoff > len {
        Err(MachOError::LinkeditOutsideFile)
    } else {
        let front = rewritten.subrange(0, fileoff as int) + placed_bytes(
            specs,
            page,
            specs.len() as int,
        );
        match fixups {
            None => Ok(front + rewritten.subrange(fileoff as int, len)),
            Some(f) => if f.start < fileoff {
                Err(MachOError::FixupsBeforeLinkedit)
            } else {
                Ok(
                    front + rewritten.subrange(fileoff as int, f.start) + f.grown
                        + rewritten.subrange(f.end, len),
                )
            },
        }
    }
}

/// The relaid image and the places of the new segments, once the load commands were accepted.
pub open spec fn relaid(
    data: Seq<u8>,
    specs: Seq<SegmentModel>,
    found: InsertScan,
    linkedit: int,
) -> Result<(Seq<u8>, Seq<InsertedSegment>), MachOError> {
    let page = page_size(data);
    let vmaddr = u64_at(data, linkedit + 24);
    let fileoff = u64_at(data, linkedit + 40);
    let delta = placed_before(specs, page, specs.len() as int);
    match placements_fit(specs, 0, page, vmaddr, fileoff) {
        Err(e) => Err(e),
        Ok(_) => match grown_in_image(data, specs, found) {
            Err(e) => Err(e),
            Ok(fixups) => match rewritten_commands(
                data,
                specs,
                linkedit,
                offset_shift(delta, fixups),
            ) {
                Err(e) => Err(e),
                Ok(rewritten) => match assembled(rewritten, specs, page, fileoff, fixups) {
                    Err(e) => Err(e),
                    Ok(out) => Ok((out, placements(specs, page, vmaddr, fileoff))),
                },
            },
        },
    }
}

/// The image with the segments inserted and the places where they stand, or why that is refused.
pub open spec fn with_segments(data: Seq<u8>, specs: Seq<SegmentModel>) -> Result<
    (Seq<u8>, Seq<InsertedSegment>),
    MachOError,
> {
    let cmds_end = 32 + u32_at(data, 20);
    if specs.len() == 0 {
        Ok((data, Seq::empty()))
    } else if data.len() < 32 {
        Err(MachOError::TruncatedHeader)
    } else if u32_at(data, 0) != MH_MAGIC_64 {
        Err(MachOError::NotMachO64)
    } else if cmds_end > usize::MAX {
        Err(MachOError::CommandSizeOverflow)
    } else if !names_fit(specs) {
        Err(MachOError::BadName)
    } else if commands_size(specs, 0) > usize::MAX {
        Err(MachOError::SegmentCommandTooLarge)
    } else {
        match insert_scan(data, specs, cmds_end, 32, u32_at(data, 16) as int, scan_start()) {
            Err(e) => Err(e),
            Ok(found) => match found.linkedit {
                None => Err(MachOError::NoLinkedit),
                Some(linkedit) => match room_for_commands(
                    data,
                    linkedit as int,
                    cmds_end,
                    commands_size(specs, 0),
                    found.minimum_content,
                ) {
                    Err(e) => Err(e),
                    Ok(_) => relaid(data, specs, found, linkedit as int),
                },
            },
        }
    }
}

/// Append the entry of one section.
fn push_section(
    out: &mut Vec<u8>,
    section: &SectionSpec,
    segment_name: &[u8; 16],
    place: InsertedSegment,
) -> (r: Result<(), MachOError>)
    ensures
        match r {
            Ok(_) => section_entry(section@, segment_name@, place) matches Ok(entry) && final(out)@
                == old(out)@ + entry && entry.len() == 80,
            Err(e) => section_entry(section@, segment_name@, place) == Err::<Seq<u8>, MachOError>(
                e,
            ),
        },
{
    broadcast use group_field_len;

    let vmaddr: u64 = match place.vmaddr.checked_add(section.offset) {
        Some(v) => v,
        None => return Err(MachOError::SectionOverflow),
    };
    let fileoff: u64 = match place.fileoff.checked_add(section.offset) {
        Some(v) => v,
        None => return Err(MachOError::SectionOverflow),
    };
    let name: [u8; 16] = fixed_name(section.name)?;
    if fileoff > u32::MAX as u64 {
        return Err(MachOError::SectionOffsetTooLarge);
    }
    push_bytes(out, &name);
    push_bytes(out, segment_name);
    push_u64(out, vmaddr);
    push_u64(out, section.size);
    push_u32(out, fileoff as u32);
    push_u32(out, section.align);
    push_u32(out, 0);
    push_u32(out, 0);
    push_u32(out, section.flags);
    push_u32(out, 0);
    push_u32(out, 0);
    push_u32(out, 0);
    proof {
        let entry = section_entry(section@, segment_name@, place)->Ok_0;
        assert(out@ =~= old(out)@ + entry);
    }
    Ok(())
}

/// Append the entries of the sections.
fn push_sections(
    out: &mut Vec<u8>,
    sections: &[SectionSpec],
    segment_name: &[u8; 16],
    place: InsertedSegment,
) -> (r: Result<(), MachOError>)
    ensures
        match r {
            Ok(_) => section_entries(section_models(sections@), 0, segment_name@, place) matches Ok(entries)
                && final(out)@ == old(out)@ + entries && entries.len() == 80 * section_models(sections@).len(),
            Err(e) => section_entries(section_models(sections@), 0, segment_name@, place) == Err::<
                Seq<u8>,
                MachOError,
            >(e),
        },
{
    let ghost before = out@;
    let ghost mut done: Seq<u8> = Seq::empty();
    assert(before + done =~= before);
    proof {
        match section_entries(section_models(sections@), 0, segment_name@, place) {
            Ok(rest) => {
                assert(done + rest =~= rest);
            },
            Err(_) => {},
        }
    }
    let mut i: usize = 0;
    while i < sections.len()
        invariant
            i <= section_models(sections@).len(),
            before == old(out)@,
            out@ == before + done,
            done.len() == 80 * i,
            match section_entries(section_models(sections@), i as int, segment_name@, place) {
                Ok(rest) => section_entries(section_models(sections@), 0, segment_name@, place) == Ok::<
                    Seq<u8>,
                    MachOError,
                >(done + rest),
                Err(e) => section_entries(section_models(sections@), 0, segment_name@, place) == Err::<
                    Seq<u8>,
                    MachOError,
                >(e),
            },
        decreases section_models(sections@).len() - i,
    {
        push_section(out, &sections[i], segment_name, place)?;
        proof {
            let entry = section_entry(section_models(sections@)[i as int], segment_name@, place)->Ok_0;
            match section_entries(section_models(sections@), i + 1, segment_name@, place) {
                Ok(rest) => {
                    assert(done + (entry + rest) =~= (done + entry) + rest);
                },
                Err(_) => {},
            }
            done = done + entry;
        }
        assert(out@ =~= before + done);
        i = i + 1;
    }
    assert(done + Seq::<u8>::empty() =~= done);
    Ok(())
}

/// Append a segment command without its sections.
fn push_segment(
    out: &mut Vec<u8>,
    spec: &SegmentSpec,
    segment_name: &[u8; 16],
    place: InsertedSegment,
)
    requires
        segment_name@ == stored_name(spec@),
        segment_command_size(spec@) <= u32::MAX,
    ensures
        final(out)@ == old(out)@ + segment_entry(spec@, place),
        segment_entry(spec@, place).len() == 72,
{
    broadcast use group_field_len;

    push_u32(out, LC_SEGMENT_64);
    push_u32(out, 72 + 80 * spec.sections.len() as u32);
    push_bytes(out, segment_name);
    push_u64(out, place.vmaddr);
    push_u64(out, place.filesize);
    push_u64(out, place.fileoff);
    push_u64(out, place.filesize);
    push_u32(out, spec.max_prot);
    push_u32(out, spec.init_prot);
    push_u32(out, spec.sections.len() as u32);
    push_u32(out, 0);
    assert(out@ =~= old(out)@ + segment_entry(spec@, place));
}

/// The new segment commands.
fn make_commands(
    specs: &[SegmentSpec],
    names: &Vec<[u8; 16]>,
    places: &Vec<InsertedSegment>,
) -> (r: Result<Vec<u8>, MachOError>)
    requires
        names@.len() == segment_models(specs@).len(),
        places@.len() == segment_models(specs@).len(),
        forall|i: int|
            0 <= i < segment_models(specs@).len() ==> (#[trigger] names@[i])@ == stored_name(segment_models(specs@)[i]),
    ensures
        match r {
            Ok(out) => segment_commands(segment_models(specs@), places@, 0) == Ok::<Seq<u8>, MachOError>(out@)
                && out@.len() == commands_size(segment_models(specs@), 0),
            Err(e) => segment_commands(segment_models(specs@), places@, 0) == Err::<Seq<u8>, MachOError>(e),
        },
{
    let mut out: Vec<u8> = Vec::new();
    proof {
        match segment_commands(segment_models(specs@), places@, 0) {
            Ok(rest) => {
                assert(out@ + rest =~= rest);
            },
            Err(_) => {},
        }
    }
    let mut i: usize = 0;
    while i < specs.len()
        invariant
            i <= segment_models(specs@).len(),
            names@.len() == segment_models(specs@).len(),
            places@.len() == segment_models(specs@).len(),
            forall|i: int|
                0 <= i < segment_models(specs@).len() ==> (#[trigger] names@[i])@ == stored_name(segment_models(specs@)[i]),
            out@.len() + commands_size(segment_models(specs@), i as int) == commands_size(segment_models(specs@), 0),
            match segment_commands(segment_models(specs@), places@, i as int) {
                Ok(rest) => segment_commands(segment_models(specs@), places@, 0) == Ok::<Seq<u8>, MachOError>(
                    out@ + rest,
                ),
                Err(e) => segment_commands(segment_models(specs@), places@, 0) == Err::<Seq<u8>, MachOError>(e),
            },
        decreases segment_models(specs@).len() - i,
    {
        let ghost start = out@;
        let spec: &SegmentSpec = &specs[i];
        if spec.sections.len() as u64 > (u32::MAX as u64 - 72) / 80 {
            return Err(MachOError::SegmentCommandTooLarge);
        }
        push_segment(&mut out, spec, &names[i], places[i]);
        push_sections(&mut out, &spec.sections, &names[i], places[i])?;
        proof {
            let head = segment_entry(segment_models(specs@)[i as int], places@[i as int]);
            let sections = section_entries(
                segment_models(specs@)[i as int].sections,
                0,
                names@[i as int]@,
                places@[i as int],
            )->Ok_0;
            match segment_commands(segment_models(specs@), places@, i + 1) {
                Ok(rest) => {
                    assert(start + (head + sections + rest) =~= out@ + rest);
                },
                Err(_) => {},
            }
        }
        i = i + 1;
    }
    assert(out@ + Seq::<u8>::empty() =~= out@);
    Ok(out)
}

/// Move the `__LINKEDIT` command.
fn move_linkedit(data: &mut Vec<u8>, linkedit: usize, delta: u64, growth: u64) -> (r: Result<
    (),
    MachOError,
>)
    requires
        linkedit + 72 <= old(data)@.len(),
    ensures
        match r {
            Ok(_) => moved_linkedit(old(data)@, linkedit as int, delta as int, growth as int)
                == Ok::<Seq<u8>, MachOError>(final(data)@) && final(data)@.len() == old(
                data,
            )@.len(),
            Err(e) => moved_linkedit(old(data)@, linkedit as int, delta as int, growth as int)
                == Err::<Seq<u8>, MachOError>(e),
        },
{
    broadcast use group_field_len;

    assert(data.len() <= usize::MAX);
    let ghost before = data@;
    let page: u64 = find_page_size(data);
    let vmaddr: u64 = match get_u64(data, linkedit + 24).checked_add(delta) {
        Some(v) => v,
        None => return Err(MachOError::LinkeditOverflow),
    };
    let fileoff: u64 = match get_u64(data, linkedit + 40).checked_add(delta) {
        Some(v) => v,
        None => return Err(MachOError::LinkeditOverflow),
    };
    let filesize: u64 = match get_u64(data, linkedit + 48).checked_add(growth) {
        Some(v) => v,
        None => return Err(MachOError::LinkeditOverflow),
    };
    let in_pages: u64 = align_up(filesize, page)?;
    let old_vmsize: u64 = get_u64(data, linkedit + 32);
    let vmsize: u64 = if old_vmsize > in_pages {
        old_vmsize
    } else {
        in_pages
    };
    put_u64(data, linkedit + 24, vmaddr);
    put_u64(data, linkedit + 32, vmsize);
    put_u64(data, linkedit + 40, fileoff);
    put_u64(data, linkedit + 48, filesize);
    assert(data@ =~= overlay(
        before,
        linkedit + 24,
        le64(vmaddr) + le64(vmsize) + le64(fileoff) + le64(filesize),
    ));
    Ok(())
}

/// Put the commands in front of the command at `linkedit`.
fn place_commands(data: &[u8], linkedit: usize, cmds_end: usize, commands: &[u8]) -> (out: Vec<u8>)
    requires
        linkedit <= cmds_end,
        cmds_end + commands@.len() <= data@.len(),
    ensures
        out@ == with_commands(data@, linkedit as int, cmds_end as int, commands@),
        out@.len() == data@.len(),
{
    assert(data.len() <= usize::MAX);
    let mut out: Vec<u8> = Vec::with_capacity(data.len());
    push_bytes(&mut out, &data[0..linkedit]);
    push_bytes(&mut out, commands);
    push_bytes(&mut out, &data[linkedit..cmds_end]);
    push_bytes(&mut out, &data[cmds_end + commands.len()..data.len()]);
    assert(out@ =~= with_commands(data@, linkedit as int, cmds_end as int, commands@));
    out
}

/// Grow the counts of the header.
fn grow_counts(data: &mut Vec<u8>, add: usize, lc_size: usize) -> (r: Result<(), MachOError>)
    requires
        32 <= old(data)@.len(),
    ensures
        match r {
            Ok(_) => with_counts(old(data)@, add as int, lc_size as int) == Ok::<
                Seq<u8>,
                MachOError,
            >(final(data)@) && final(data)@.len() == old(data)@.len(),
            Err(e) => with_counts(old(data)@, add as int, lc_size as int) == Err::<
                Seq<u8>,
                MachOError,
            >(e),
        },
{
    let ncmds: u32 = get_u32(data, 16);
    let sizeofcmds: u32 = get_u32(data, 20);
    if add as u64 > (u32::MAX - ncmds) as u64 {
        return Err(MachOError::CommandCountOverflow);
    }
    if lc_size as u64 > (u32::MAX - sizeofcmds) as u64 {
        return Err(MachOError::CommandSizeOverflow);
    }
    put_u32(data, 16, ncmds + add as u32);
    put_u32(data, 20, sizeofcmds + lc_size as u32);
    Ok(())
}

/// The grown chained fixups of an image.
struct GrownFixups {
    start: usize,
    end: usize,
    grown: Vec<u8>,
    growth: usize,
}

spec fn fixups_model(fixups: Option<GrownFixups>) -> Option<FixupsModel> {
    match fixups {
        None => None,
        Some(f) => Some(
            FixupsModel {
                start: f.start as int,
                end: f.end as int,
                grown: f.grown@,
                growth: f.growth as int,
            },
        ),
    }
}

/// Grow the chained fixups of the image.
fn grow_in_image(data: &[u8], specs: &[SegmentSpec], found: &InsertScan) -> (r: Result<
    Option<GrownFixups>,
    MachOError,
>)
    requires
        found.fixups matches Some(f) ==> f + 16 <= data@.len(),
    ensures
        match r {
            Ok(f) => grown_in_image(data@, segment_models(specs@), *found) == Ok::<Option<FixupsModel>, MachOError>(
                fixups_model(f),
            ) && (f matches Some(g) ==> g.start <= g.end <= data@.len() && g.grown@.len()
                == g.end - g.start + g.growth),
            Err(e) => grown_in_image(data@, segment_models(specs@), *found) == Err::<
                Option<FixupsModel>,
                MachOError,
            >(e),
        },
{
    assert(data.len() <= usize::MAX);
    let command: usize = match found.fixups {
        Some(command) => command,
        None => return Ok(None),
    };
    let start: usize = get_u32(data, command + 8) as usize;
    let size: usize = get_u32(data, command + 12) as usize;
    let end: usize = match start.checked_add(size) {
        Some(end) => end,
        None => return Err(MachOError::FixupsRangeOverflow),
    };
    if end > data.len() {
        return Err(MachOError::FixupsOutsideFile);
    }
    let (grown, growth) = grow_chained_fixups(
        &data[start..end],
        found.linkedit_index,
        specs.len(),
        found.segment_count,
    )?;
    Ok(Some(GrownFixups { start, end, grown, growth }))
}

/// Put the file together.
fn assemble(
    rewritten: &[u8],
    specs: &[SegmentSpec],
    page: u64,
    fileoff: u64,
    delta: u64,
    fixups: &Option<GrownFixups>,
) -> (r: Result<Vec<u8>, MachOError>)
    requires
        0 < page,
        delta == placed_before(segment_models(specs@), page, segment_models(specs@).len() as int),
        fixups matches Some(f) ==> f.start <= f.end <= rewritten@.len(),
    ensures
        match r {
            Ok(out) => assembled(rewritten@, segment_models(specs@), page, fileoff, fixups_model(*fixups)) == Ok::<
                Seq<u8>,
                MachOError,
            >(out@),
            Err(e) => assembled(rewritten@, segment_models(specs@), page, fileoff, fixups_model(*fixups)) == Err::<
                Seq<u8>,
                MachOError,
            >(e),
        },
{
    assert(rewritten.len() <= usize::MAX);
    let growth: u64 = match fixups {
        Some(f) => f.growth as u64,
        None => 0,
    };
    let total: u64 = match delta.checked_add(growth) {
        Some(v) => v,
        None => return Err(MachOError::OutputOverflow),
    };
    if total > (usize::MAX - rewritten.len()) as u64 {
        return Err(MachOError::OutputOverflow);
    }
    if fileoff > rewritten.len() as u64 {
        return Err(MachOError::LinkeditOutsideFile);
    }
    let fileoff: usize = fileoff as usize;
    let mut out: Vec<u8> = Vec::with_capacity(rewritten.len() + total as usize);
    push_bytes(&mut out, &rewritten[0..fileoff]);
    assert(out@ =~= rewritten@.subrange(0, fileoff as int));
    push_placed(&mut out, specs, page);
    match fixups {
        Some(f) => {
            if f.start < fileoff {
                return Err(MachOError::FixupsBeforeLinkedit);
            }
            push_bytes(&mut out, &rewritten[fileoff..f.start]);
            push_bytes(&mut out, &f.grown);
            push_bytes(&mut out, &rewritten[f.end..rewritten.len()]);
        },
        None => {
            push_bytes(&mut out, &rewritten[fileoff..rewritten.len()]);
        },
    }
    Ok(out)
}

/// Rewrite the load commands.
fn rewrite_commands(
    data: Vec<u8>,
    specs: &[SegmentSpec],
    names: &Vec<[u8; 16]>,
    places: &Vec<InsertedSegment>,
    linkedit: usize,
    lc_size: usize,
    shift: &OffsetShift,
) -> (r: Result<Vec<u8>, MachOError>)
    requires
        32 <= linkedit,
        linkedit + 72 <= 32 + u32_at(data@, 20),
        32 + u32_at(data@, 20) + lc_size <= data@.len(),
        lc_size == commands_size(segment_models(specs@), 0),
        commands_lie(data@, 32 + u32_at(data@, 20), 32, u32_at(data@, 16) as int),
        names@.len() == segment_models(specs@).len(),
        forall|i: int|
            0 <= i < segment_models(specs@).len() ==> (#[trigger] names@[i])@ == stored_name(segment_models(specs@)[i]),
        places@ == placements(
            segment_models(specs@),
            page_size(data@),
            u64_at(data@, linkedit + 24),
            u64_at(data@, linkedit + 40),
        ),
    ensures
        match r {
            Ok(out) => rewritten_commands(data@, segment_models(specs@), linkedit as int, *shift) == Ok::<
                Seq<u8>,
                MachOError,
            >(out@) && out@.len() == data@.len(),
            Err(e) => rewritten_commands(data@, segment_models(specs@), linkedit as int, *shift) == Err::<
                Seq<u8>,
                MachOError,
            >(e),
        },
{
    assert(data.len() <= usize::MAX);
    let ncmds: u32 = get_u32(&data, 16);
    let cmds_end: usize = 32 + get_u32(&data, 20) as usize;
    let mut moved: Vec<u8> = data;
    shift_commands(&mut moved, ncmds, shift, cmds_end)?;
    move_linkedit(&mut moved, linkedit, shift.delta, shift.growth)?;
    let commands: Vec<u8> = make_commands(specs, names, places)?;
    let mut out: Vec<u8> = place_commands(&moved, linkedit, cmds_end, &commands);
    grow_counts(&mut out, specs.len(), lc_size)?;
    Ok(out)
}

/// Insert fixup-free segments immediately before `__LINKEDIT` in a thin 64-bit Mach-O image.
pub fn insert_segments(data: Vec<u8>, specs: &[SegmentSpec]) -> (r: Result<
    InsertResult,
    MachOError,
>)
    ensures
        match r {
            Ok(result) => with_segments(data@, segment_models(specs@)) == Ok::<
                (Seq<u8>, Seq<InsertedSegment>),
                MachOError,
            >((result.data@, result.segments@)),
            Err(e) => with_segments(data@, segment_models(specs@)) == Err::<
                (Seq<u8>, Seq<InsertedSegment>),
                MachOError,
            >(e),
        },
{
    if specs.len() == 0 {
        let segments: Vec<InsertedSegment> = Vec::new();
        return Ok(InsertResult { data, segments });
    }
    if data.len() < 32 {
        return Err(MachOError::TruncatedHeader);
    }
    if get_u32(&data, 0) != MH_MAGIC_64 {
        return Err(MachOError::NotMachO64);
    }
    let page: u64 = find_page_size(&data);
    let ncmds: u32 = get_u32(&data, 16);
    let cmds_end: usize = match 32usize.checked_add(get_u32(&data, 20) as usize) {
        Some(end) => end,
        None => return Err(MachOError::CommandSizeOverflow),
    };
    let names: Vec<[u8; 16]> = stored_names(specs)?;
    let lc_size: usize = count_commands(specs)?;
    let found: InsertScan = scan_commands(&data, specs, &names, cmds_end, ncmds)?;
    let linkedit: usize = match found.linkedit {
        Some(linkedit) => linkedit,
        None => return Err(MachOError::NoLinkedit),
    };
    check_room(&data, linkedit, cmds_end, lc_size, found.minimum_content)?;

    let vmaddr: u64 = get_u64(&data, linkedit + 24);
    let fileoff: u64 = get_u64(&data, linkedit + 40);
    let (places, delta) = place_segments(specs, page, vmaddr, fileoff)?;
    let fixups: Option<GrownFixups> = grow_in_image(&data, specs, &found)?;
    let shift: OffsetShift = match &fixups {
        Some(f) => OffsetShift { delta, fixups_end: f.end as u64, growth: f.growth as u64 },
        None => OffsetShift { delta, fixups_end: u64::MAX, growth: 0 },
    };
    let rewritten: Vec<u8> = rewrite_commands(
        data,
        specs,
        &names,
        &places,
        linkedit,
        lc_size,
        &shift,
    )?;
    let out: Vec<u8> = assemble(&rewritten, specs, page, fileoff, delta, &fixups)?;
    Ok(InsertResult { data: out, segments: places })
}

} // verus!
