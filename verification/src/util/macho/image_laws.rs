//! What the addresses and the fixups of an image are.

use vstd::prelude::*;
use crate::bytes::u64_at;
use super::chains::chained_fixups_of;
use super::fixups::{binds_of, rebases_from, FixupModel, Segment, TargetModel};
use super::format::MachOError;
use super::image::{
    bindings_between, chained_blob, classic_from, file_offset_from, pointer_from, rebased_from,
    with_binds, with_dyld_info, with_rebases, CommandFact, CommandKind, ImageModel,
};

verus! {

/// Whether a segment holds an address range in the file.
pub open spec fn is_held(segment: Segment, start: int, end: int) -> bool {
    segment.vmaddr <= start && end <= segment.vmaddr + segment.filesize
}

/// Where an address range stands in the file: as far behind the start of the first segment that holds
/// it as the address is behind the address of that segment.
pub proof fn law_address_is_in_its_segment(image: ImageModel, vmaddr: u64, size: int)
    requires
        image.file_offset(vmaddr, size) is Ok,
    ensures
        exists|i: int|
            0 <= i < image.segments.len() && #[trigger] is_held(
                image.segments[i],
                vmaddr as int,
                vmaddr + size,
            ) && image.file_offset(vmaddr, size)->Ok_0 - image.segments[i].fileoff == vmaddr
                - image.segments[i].vmaddr && forall|k: int|
                0 <= k < i ==> !#[trigger] is_held(image.segments[k], vmaddr as int, vmaddr + size),
{
    lemma_address(image.segments, 0, vmaddr, vmaddr + size);
}

proof fn lemma_address(segments: Seq<Segment>, from: int, vmaddr: u64, end: int)
    requires
        0 <= from,
        file_offset_from(segments, from, vmaddr, end) is Ok,
        forall|k: int| 0 <= k < from ==> !#[trigger] is_held(segments[k], vmaddr as int, end),
    ensures
        exists|i: int|
            0 <= i < segments.len() && #[trigger] is_held(segments[i], vmaddr as int, end)
                && file_offset_from(segments, from, vmaddr, end)->Ok_0 - segments[i].fileoff
                == vmaddr - segments[i].vmaddr && forall|k: int|
                0 <= k < i ==> !#[trigger] is_held(segments[k], vmaddr as int, end),
    decreases segments.len() - from,
{
    if is_held(segments[from], vmaddr as int, end) {
        assert(0 <= from < segments.len());
    } else {
        lemma_address(segments, from + 1, vmaddr, end);
    }
}

/// Whether a fixup binds a name inside a range.
pub open spec fn binds_between(fixup: FixupModel, start: u64, end: u64, name: Seq<char>) -> bool {
    start <= fixup.location < end && fixup.target == TargetModel::Bind(Some(name))
}

/// The names that are bound inside a range are those of the fixups that bind there.
pub proof fn law_bindings_are_those_in_the_range(
    fixups: Seq<FixupModel>,
    start: u64,
    end: u64,
    location: u64,
    name: Seq<char>,
)
    ensures
        bindings_between(fixups, start, end).contains((location, name)) <==> exists|i: int|
            0 <= i < fixups.len() && fixups[i].location == location && #[trigger] binds_between(
                fixups[i],
                start,
                end,
                name,
            ),
    decreases fixups.len(),
{
    if fixups.len() > 0 {
        let rest = fixups.drop_last();
        let last = fixups.last();
        let before = bindings_between(rest, start, end);
        let all = bindings_between(fixups, start, end);
        law_bindings_are_those_in_the_range(rest, start, end, location, name);
        if all.contains((location, name)) {
            let k = choose|k: int| 0 <= k < all.len() && all[k] == (location, name);
            if k < before.len() {
                assert(before[k] == (location, name));
                let i = choose|i: int|
                    0 <= i < rest.len() && rest[i].location == location && #[trigger] binds_between(
                        rest[i],
                        start,
                        end,
                        name,
                    );
                assert(binds_between(fixups[i], start, end, name));
            } else {
                assert(binds_between(fixups[fixups.len() - 1], start, end, name));
            }
        }
        if exists|i: int|
            0 <= i < fixups.len() && fixups[i].location == location && #[trigger] binds_between(
                fixups[i],
                start,
                end,
                name,
            ) {
            let i = choose|i: int|
                0 <= i < fixups.len() && fixups[i].location == location && #[trigger] binds_between(
                    fixups[i],
                    start,
                    end,
                    name,
                );
            if i < rest.len() {
                assert(binds_between(rest[i], start, end, name));
                let k = choose|k: int| 0 <= k < before.len() && before[k] == (location, name);
                assert(all[k] == (location, name));
            } else {
                assert(all[before.len() as int] == (location, name));
            }
        }
    }
}

/// The address that is written to a location is that of the first fixup there, which rebases to an
/// address that a segment of the image holds.
pub proof fn law_pointer_is_that_of_its_fixup(
    image: ImageModel,
    fixups: Seq<FixupModel>,
    from: int,
    location: u64,
)
    requires
        0 <= from,
        pointer_from(image, fixups, from, location) is Ok,
    ensures
        ({
            let target = pointer_from(image, fixups, from, location)->Ok_0;
            &&& exists|i: int|
                from <= i < fixups.len() && #[trigger] fixups[i].location == location
                    && fixups[i].target == TargetModel::Rebase(target) && forall|k: int|
                    from <= k < i ==> (#[trigger] fixups[k]).location != location
            &&& exists|s: int|
                0 <= s < image.segments.len() && (#[trigger] image.segments[s]).vmaddr <= target
                    && target < image.segments[s].vmaddr + image.segments[s].vmsize
        }),
    decreases fixups.len() - from,
{
    if fixups[from].location != location {
        law_pointer_is_that_of_its_fixup(image, fixups, from + 1, location);
        let target = pointer_from(image, fixups, from, location)->Ok_0;
        let i = choose|i: int|
            from + 1 <= i < fixups.len() && #[trigger] fixups[i].location == location
                && fixups[i].target == TargetModel::Rebase(target) && forall|k: int|
                from + 1 <= k < i ==> (#[trigger] fixups[k]).location != location;
        assert(fixups[i].location == location);
        assert forall|k: int| from <= k < i implies (#[trigger] fixups[k]).location != location by {}
    } else {
        assert(fixups[from].location == location);
    }
}

/// Whether every fixup of one list is in another.
pub open spec fn are_held(part: Seq<FixupModel>, all: Seq<FixupModel>) -> bool {
    forall|i: int| 0 <= i < part.len() ==> all.contains(#[trigger] part[i])
}

proof fn lemma_held_after(part: Seq<FixupModel>, done: Seq<FixupModel>)
    ensures
        are_held(part, done + part),
        are_held(done, done + part),
{
    let all = done + part;
    assert forall|i: int| 0 <= i < part.len() implies all.contains(#[trigger] part[i]) by {
        assert(all[done.len() + i] == part[i]);
    }
    assert forall|i: int| 0 <= i < done.len() implies all.contains(#[trigger] done[i]) by {
        assert(all[i] == done[i]);
    }
}

proof fn lemma_held_through(a: Seq<FixupModel>, b: Seq<FixupModel>, c: Seq<FixupModel>)
    requires
        are_held(a, b),
        are_held(b, c),
    ensures
        are_held(a, c),
{
    assert forall|i: int| 0 <= i < a.len() implies c.contains(#[trigger] a[i]) by {
        let j = choose|j: int| 0 <= j < b.len() && b[j] == a[i];
        assert(c.contains(b[j]));
    }
}

proof fn lemma_rebased(image: ImageModel, locations: Seq<u64>, from: int, done: Seq<FixupModel>)
    requires
        0 <= from,
        rebased_from(image, locations, from, done) is Ok,
    ensures
        are_held(done, rebased_from(image, locations, from, done)->Ok_0),
        forall|i: int|
            from <= i < locations.len() ==> is_rebased(
                image,
                #[trigger] locations[i],
                rebased_from(image, locations, from, done)->Ok_0,
            ),
    decreases locations.len() - from,
{
    if from < locations.len() {
        let bytes = image.bytes(locations[from], 8)->Ok_0;
        let fixup = FixupModel {
            location: locations[from],
            target: TargetModel::Rebase(u64_at(bytes, 0)),
        };
        let more = done.push(fixup);
        let all = rebased_from(image, locations, from, done)->Ok_0;
        lemma_rebased(image, locations, from + 1, more);
        lemma_held_after(seq![fixup], done);
        assert(done + seq![fixup] =~= more);
        lemma_held_through(done, more, all);
        assert(more[done.len() as int] == fixup);
        assert(all.contains(fixup));
    } else {
        assert(are_held(done, done)) by {
            assert forall|i: int| 0 <= i < done.len() implies done.contains(#[trigger] done[i]) by {}
        }
    }
}

/// Whether a location is rebased to the address that the file holds there.
pub open spec fn is_rebased(image: ImageModel, location: u64, all: Seq<FixupModel>) -> bool {
    image.bytes(location, 8) matches Ok(bytes) && all.contains(
        FixupModel { location, target: TargetModel::Rebase(u64_at(bytes, 0)) },
    )
}

/// The bytes of the file that a command locates.
pub open spec fn stream_at(image: ImageModel, off: u32, size: u32) -> Seq<u8> {
    image.data.subrange(off as int, off + size)
}

proof fn lemma_with_binds(image: ImageModel, off: u32, size: u32, done: Seq<FixupModel>)
    requires
        with_binds(image, off, size, done) is Ok,
    ensures
        are_held(done, with_binds(image, off, size, done)->Ok_0),
        size > 0 ==> (binds_of(stream_at(image, off, size), image.segments) matches Ok(binds)
            && are_held(binds, with_binds(image, off, size, done)->Ok_0)),
{
    if size > 0 {
        let binds = binds_of(stream_at(image, off, size), image.segments)->Ok_0;
        lemma_held_after(binds, done);
    } else {
        assert forall|i: int| 0 <= i < done.len() implies done.contains(#[trigger] done[i]) by {}
    }
}

/// What the streams of a command name: the locations that are rebased, and the binds, weak binds and
/// lazy binds.
pub open spec fn names_its_fixups(image: ImageModel, info: [u32; 8], all: Seq<FixupModel>) -> bool {
    &&& info[1] > 0 ==> (rebases_from(
        stream_at(image, info[0], info[1]),
        image.segments,
        0,
        0,
        Seq::empty(),
    ) matches Ok(locations) && forall|i: int|
        0 <= i < locations.len() ==> is_rebased(image, #[trigger] locations[i], all))
    &&& info[3] > 0 ==> (binds_of(
        stream_at(image, info[2], info[3]),
        image.segments,
    ) matches Ok(binds) && are_held(binds, all))
    &&& info[5] > 0 ==> (binds_of(
        stream_at(image, info[4], info[5]),
        image.segments,
    ) matches Ok(binds) && are_held(binds, all))
    &&& info[7] > 0 ==> (binds_of(
        stream_at(image, info[6], info[7]),
        image.segments,
    ) matches Ok(binds) && are_held(binds, all))
}

proof fn lemma_names_more(
    image: ImageModel,
    info: [u32; 8],
    part: Seq<FixupModel>,
    all: Seq<FixupModel>,
)
    requires
        names_its_fixups(image, info, part),
        are_held(part, all),
    ensures
        names_its_fixups(image, info, all),
{
    assert forall|location: u64| #[trigger]
        is_rebased(image, location, part) implies is_rebased(image, location, all) by {
        let bytes = image.bytes(location, 8)->Ok_0;
        let fixup = FixupModel { location, target: TargetModel::Rebase(u64_at(bytes, 0)) };
        let j = choose|j: int| 0 <= j < part.len() && part[j] == fixup;
        assert(all.contains(part[j]));
    }
    if info[1] > 0 {
        let locations = rebases_from(
            stream_at(image, info[0], info[1]),
            image.segments,
            0,
            0,
            Seq::empty(),
        )->Ok_0;
        assert forall|i: int| 0 <= i < locations.len() implies is_rebased(
            image,
            #[trigger] locations[i],
            all,
        ) by {
            assert(is_rebased(image, locations[i], part));
        }
    }
    if info[3] > 0 {
        lemma_held_through(
            binds_of(stream_at(image, info[2], info[3]), image.segments)->Ok_0,
            part,
            all,
        );
    }
    if info[5] > 0 {
        lemma_held_through(
            binds_of(stream_at(image, info[4], info[5]), image.segments)->Ok_0,
            part,
            all,
        );
    }
    if info[7] > 0 {
        lemma_held_through(
            binds_of(stream_at(image, info[6], info[7]), image.segments)->Ok_0,
            part,
            all,
        );
    }
}

proof fn lemma_dyld_info(image: ImageModel, info: [u32; 8], done: Seq<FixupModel>)
    requires
        with_dyld_info(image, info, done) is Ok,
    ensures
        are_held(done, with_dyld_info(image, info, done)->Ok_0),
        names_its_fixups(image, info, with_dyld_info(image, info, done)->Ok_0),
{
    let rebased = with_rebases(image, info[0], info[1], done)->Ok_0;
    let bound = with_binds(image, info[2], info[3], rebased)->Ok_0;
    let weak = with_binds(image, info[4], info[5], bound)->Ok_0;
    let all = with_binds(image, info[6], info[7], weak)->Ok_0;
    if info[1] > 0 {
        let locations = rebases_from(
            stream_at(image, info[0], info[1]),
            image.segments,
            0,
            0,
            Seq::empty(),
        )->Ok_0;
        lemma_rebased(image, locations, 0, done);
    } else {
        assert forall|i: int| 0 <= i < done.len() implies done.contains(#[trigger] done[i]) by {}
    }
    lemma_with_binds(image, info[2], info[3], rebased);
    lemma_with_binds(image, info[4], info[5], bound);
    lemma_with_binds(image, info[6], info[7], weak);
    lemma_held_through(bound, weak, all);
    lemma_held_through(rebased, bound, all);
    lemma_held_through(done, rebased, all);
    if info[5] > 0 {
        lemma_held_through(
            binds_of(stream_at(image, info[4], info[5]), image.segments)->Ok_0,
            weak,
            all,
        );
    }
    if info[3] > 0 {
        lemma_held_through(
            binds_of(stream_at(image, info[2], info[3]), image.segments)->Ok_0,
            bound,
            all,
        );
    }
    if info[1] > 0 {
        let locations = rebases_from(
            stream_at(image, info[0], info[1]),
            image.segments,
            0,
            0,
            Seq::empty(),
        )->Ok_0;
        assert forall|i: int| 0 <= i < locations.len() implies is_rebased(
            image,
            #[trigger] locations[i],
            all,
        ) by {
            assert(is_rebased(image, locations[i], rebased));
            let bytes = image.bytes(locations[i], 8)->Ok_0;
            let fixup = FixupModel {
                location: locations[i],
                target: TargetModel::Rebase(u64_at(bytes, 0)),
            };
            let j = choose|j: int| 0 <= j < rebased.len() && rebased[j] == fixup;
            assert(all.contains(rebased[j]));
        }
    }
}

proof fn lemma_classic(
    image: ImageModel,
    commands: Seq<CommandFact>,
    from: int,
    done: Seq<FixupModel>,
)
    requires
        0 <= from,
        classic_from(image, commands, from, done) is Ok,
    ensures
        are_held(done, classic_from(image, commands, from, done)->Ok_0),
        forall|k: int|
            from <= k < commands.len() ==> ((#[trigger] commands[k]).kind matches Some(
                CommandKind::DyldInfo(info),
            ) ==> names_its_fixups(
                image,
                info,
                classic_from(image, commands, from, done)->Ok_0,
            )),
    decreases commands.len() - from,
{
    let all = classic_from(image, commands, from, done)->Ok_0;
    if from < commands.len() {
        match commands[from].kind {
            Some(CommandKind::DyldInfo(info)) => {
                let next = with_dyld_info(image, info, done)->Ok_0;
                lemma_dyld_info(image, info, done);
                lemma_classic(image, commands, from + 1, next);
                lemma_held_through(done, next, all);
                lemma_names_more(image, info, next, all);
            },
            _ => {
                lemma_classic(image, commands, from + 1, done);
            },
        }
    } else {
        assert forall|i: int| 0 <= i < done.len() implies done.contains(#[trigger] done[i]) by {}
    }
}

/// The fixups of an image hold everything that its load commands locate: the chained fixups, and of
/// every `LC_DYLD_INFO` the rebases, the binds, the weak binds and the lazy binds.
pub proof fn law_fixups_hold_every_stream(image: ImageModel, commands: Seq<CommandFact>, k: int)
    requires
        image.fixups_by(commands) is Ok,
        0 <= k < commands.len(),
    ensures
        ({
            let all = image.fixups_by(commands)->Ok_0;
            &&& chained_blob(image.data, commands, 0, None) matches Ok(Some(blob))
                ==> (chained_fixups_of(image, blob) matches Ok(chained) && are_held(chained, all))
            &&& commands[k].kind matches Some(CommandKind::DyldInfo(info)) ==> names_its_fixups(
                image,
                info,
                all,
            )
        }),
{
    let chained = match chained_blob(image.data, commands, 0, None)->Ok_0 {
        None => Seq::empty(),
        Some(blob) => chained_fixups_of(image, blob)->Ok_0,
    };
    lemma_classic(image, commands, 0, chained);
}

/// The chained fixups of an image are what the last of its `LC_DYLD_CHAINED_FIXUPS` commands locates.
pub proof fn law_chained_fixups_are_located(
    data: Seq<u8>,
    commands: Seq<CommandFact>,
    from: int,
    found: Option<Seq<u8>>,
    k: int,
    offset: u32,
    size: u32,
)
    requires
        0 <= from <= k < commands.len(),
        commands[k].cmd == 0x8000_0034,
        commands[k].kind == Some(CommandKind::LinkeditData(offset, size)),
        offset + size <= data.len(),
        forall|i: int| k < i < commands.len() ==> (#[trigger] commands[i]).cmd != 0x8000_0034,
        chained_blob(data, commands, from, found) is Ok,
    ensures
        chained_blob(data, commands, from, found) == Ok::<Option<Seq<u8>>, MachOError>(
            Some(data.subrange(offset as int, offset + size)),
        ),
    decreases commands.len() - from,
{
    if from == k {
        lemma_no_more_chained(
            data,
            commands,
            from + 1,
            Some(data.subrange(offset as int, offset + size)),
        );
    } else {
        let next = if commands[from].cmd != 0x8000_0034 {
            found
        } else {
            match commands[from].kind {
                Some(CommandKind::LinkeditData(offset, size)) => if offset + size <= data.len() {
                    Some(data.subrange(offset as int, offset + size))
                } else {
                    None
                },
                _ => found,
            }
        };
        law_chained_fixups_are_located(data, commands, from + 1, next, k, offset, size);
    }
}

proof fn lemma_no_more_chained(
    data: Seq<u8>,
    commands: Seq<CommandFact>,
    from: int,
    found: Option<Seq<u8>>,
)
    requires
        0 <= from,
        forall|i: int| from <= i < commands.len() ==> (#[trigger] commands[i]).cmd != 0x8000_0034,
    ensures
        chained_blob(data, commands, from, found) == Ok::<Option<Seq<u8>>, MachOError>(found),
    decreases commands.len() - from,
{
    if from < commands.len() {
        assert(commands[from].cmd != 0x8000_0034);
        lemma_no_more_chained(data, commands, from + 1, found);
    }
}

} // verus!
