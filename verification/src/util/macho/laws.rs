//! What inserting segments does to the rest of an image.

use vstd::prelude::*;
use crate::bytes::{group_field_len, lemma_u32_at_same, u32_at, u64_at};
use super::format::{command_at, command_size_at, LC_SEGMENT_64};
use super::insert::{
    commands_lie, commands_size, insert_scan, lemma_scan_lies, names_fit, page_size, scan_start,
    InsertScan, InsertedSegment, SectionModel, SegmentModel,
};
use super::placement::{lemma_placed_before, lemma_placed_bytes, placed_before, placed_bytes};
use super::relayout::{
    grown_in_image, moved_linkedit, offset_shift, rewritten_commands, section_entries,
    section_entry, segment_commands, segment_entry, with_commands, with_segments,
};
use super::shift::{
    lemma_commands_lie_same, lemma_shifted_command, same_outside, shifted_command,
    shifted_commands, OffsetShift,
};

verus! {

/// Each segment that was inserted has a place.
pub proof fn lemma_places_len(data: Seq<u8>, specs: Seq<SegmentModel>)
    requires
        with_segments(data, specs).is_ok(),
    ensures
        with_segments(data, specs)->Ok_0.1.len() == specs.len(),
{
}

/// Every inserted segment's data stands in the new file at the offset that is reported for it.
#[verifier::spinoff_prover]
#[verifier::rlimit(40)]
pub proof fn law_inserted_data_is_placed(data: Seq<u8>, specs: Seq<SegmentModel>, i: int)
    requires
        with_segments(data, specs).is_ok(),
        0 <= i < specs.len(),
    ensures
        ({
            let (out, places) = with_segments(data, specs)->Ok_0;
            let at = places[i].fileoff as int;
            &&& places.len() == specs.len()
            &&& at + specs[i].data.len() <= out.len()
            &&& out.subrange(at, at + specs[i].data.len()) == specs[i].data
        }),
{
    let (out, places) = with_segments(data, specs)->Ok_0;
    let found = insert_scan(
        data,
        specs,
        32 + u32_at(data, 20),
        32,
        u32_at(data, 16) as int,
        scan_start(),
    )->Ok_0;
    let linkedit = found.linkedit->0 as int;
    let page = page_size(data);
    let fileoff = u64_at(data, linkedit + 40);
    let n = specs.len() as int;
    lemma_placed_bytes(specs, page, n);
    lemma_placed_before(specs, page, i, n);
    let inserted = placed_bytes(specs, page, n);
    let before = placed_before(specs, page, i);
    let len = specs[i].data.len();
    assert(inserted.subrange(before, before + len) == specs[i].data);
    assert(fileoff + placed_before(specs, page, n) <= usize::MAX);
    assert(places[i].fileoff == fileoff + before);
    assert(out.subrange(fileoff + before, fileoff + before + len) =~= inserted.subrange(
        before,
        before + len,
    ));
}

/// What the walk over the load commands of an accepted image finds.
pub open spec fn scanned(data: Seq<u8>, specs: Seq<SegmentModel>) -> InsertScan {
    insert_scan(
        data,
        specs,
        32 + u32_at(data, 20),
        32,
        u32_at(data, 16) as int,
        scan_start(),
    )->Ok_0
}

/// The offset of the `__LINKEDIT` command of an accepted image.
pub open spec fn linkedit_of(data: Seq<u8>, specs: Seq<SegmentModel>) -> int {
    scanned(data, specs).linkedit->0 as int
}

/// The end of the load commands once those of the new segments are among them.
pub open spec fn new_commands_end(data: Seq<u8>, specs: Seq<SegmentModel>) -> int {
    32 + u32_at(data, 20) + commands_size(specs, 0)
}

pub(crate) proof fn lemma_section_entries_len(
    sections: Seq<SectionModel>,
    from: int,
    name: Seq<u8>,
    place: InsertedSegment,
)
    requires
        0 <= from <= sections.len(),
        name.len() == 16,
    ensures
        section_entries(sections, from, name, place) matches Ok(entries) ==> entries.len() == 80 * (
        sections.len() - from),
    decreases sections.len() - from,
{
    broadcast use group_field_len;

    if from < sections.len() {
        lemma_section_entries_len(sections, from + 1, name, place);
        assert(section_entry(sections[from], name, place) matches Ok(e) ==> e.len() == 80);
    }
}

pub(crate) proof fn lemma_segment_commands_len(
    specs: Seq<SegmentModel>,
    places: Seq<InsertedSegment>,
    from: int,
)
    requires
        0 <= from <= specs.len(),
        names_fit(specs),
    ensures
        segment_commands(specs, places, from) matches Ok(commands) ==> commands.len()
            == commands_size(specs, from),
    decreases specs.len() - from,
{
    broadcast use group_field_len;

    if from < specs.len() {
        lemma_segment_commands_len(specs, places, from + 1);
        let name = super::insert::stored_name(specs[from]);
        assert(name.len() == 16);
        lemma_section_entries_len(specs[from].sections, 0, name, places[from]);
        assert(segment_entry(specs[from], places[from]).len() == 72);
    }
}

/// Shifting offsets changes nothing outside the load commands.
pub(crate) proof fn lemma_shifted_commands(
    data: Seq<u8>,
    cmds_end: int,
    off: int,
    n: int,
    shift: OffsetShift,
)
    requires
        0 <= off,
        commands_lie(data, cmds_end, off, n),
    ensures
        shifted_commands(data, off, n, shift) matches Ok(out) ==> same_outside(
            data,
            out,
            off + 8,
            cmds_end,
        ),
    decreases n,
{
    if n > 0 {
        lemma_shifted_command(data, off, shift);
        match shifted_command(data, off, shift) {
            Ok(next) => {
                let size = command_size_at(data, off);
                lemma_commands_lie_same(data, next, cmds_end, off + size, n - 1);
                lemma_shifted_commands(next, cmds_end, off + size, n - 1, shift);
            },
            Err(_) => {},
        }
    }
}

/// Whether a command begins at `at`, among the `n` commands from `off` on.
pub open spec fn is_command(data: Seq<u8>, off: int, n: int, at: int) -> bool
    decreases n,
{
    n > 0 && (off == at || is_command(data, off + command_size_at(data, off), n - 1, at))
}

pub(crate) proof fn lemma_is_command_same(
    a: Seq<u8>,
    b: Seq<u8>,
    cmds_end: int,
    off: int,
    n: int,
    at: int,
)
    requires
        0 <= off,
        a.len() == b.len(),
        forall|i: int| off <= i < a.len() ==> a[i] == b[i],
        commands_lie(a, cmds_end, off, n),
        is_command(a, off, n, at),
    ensures
        is_command(b, off, n, at),
        off <= at,
    decreases n,
{
    if n > 0 && off != at {
        assert(a.subrange(off + 4, off + 8) =~= b.subrange(off + 4, off + 8));
        lemma_u32_at_same(a, off + 4, b, off + 4);
        lemma_is_command_same(a, b, cmds_end, off + command_size_at(a, off), n - 1, at);
    }
}

/// Shifting offsets leaves segment commands as they are.
proof fn lemma_segment_commands_kept(
    data: Seq<u8>,
    cmds_end: int,
    off: int,
    n: int,
    shift: OffsetShift,
    at: int,
)
    requires
        0 <= off,
        cmds_end <= data.len(),
        commands_lie(data, cmds_end, off, n),
        is_command(data, off, n, at),
        command_at(data, at) == LC_SEGMENT_64,
    ensures
        at + command_size_at(data, at) <= cmds_end,
        off <= at,
        shifted_commands(data, off, n, shift) matches Ok(out) ==> out.len() == data.len()
            && out.subrange(at, at + command_size_at(data, at)) == data.subrange(
            at,
            at + command_size_at(data, at),
        ),
    decreases n,
{
    let size = command_size_at(data, off);
    lemma_shifted_command(data, off, shift);
    lemma_is_command_same(data, data, cmds_end, off, n, at);
    if off == at {
        lemma_shifted_commands(data, cmds_end, off + size, n - 1, shift);
        match shifted_commands(data, off, n, shift) {
            Ok(out) => {
                assert(out.subrange(at, at + size) =~= data.subrange(at, at + size));
            },
            Err(_) => {},
        }
    } else {
        lemma_is_command_same(data, data, cmds_end, off + size, n - 1, at);
        match shifted_command(data, off, shift) {
            Ok(next) => {
                lemma_commands_lie_same(data, next, cmds_end, off + size, n - 1);
                lemma_is_command_same(data, next, cmds_end, off + size, n - 1, at);
                assert(at + 8 <= data.len()) by {
                    lemma_command_lies(data, cmds_end, off + size, n - 1, at);
                }
                assert(next.subrange(at, at + 4) =~= data.subrange(at, at + 4));
                assert(next.subrange(at + 4, at + 8) =~= data.subrange(at + 4, at + 8));
                lemma_u32_at_same(next, at, data, at);
                lemma_u32_at_same(next, at + 4, data, at + 4);
                lemma_segment_commands_kept(next, cmds_end, off + size, n - 1, shift, at);
                let len = command_size_at(data, at);
                assert(next.subrange(at, at + len) =~= data.subrange(at, at + len));
            },
            Err(_) => {
                lemma_command_lies(data, cmds_end, off, n, at);
            },
        }
    }
}

pub(crate) proof fn lemma_command_lies(data: Seq<u8>, cmds_end: int, off: int, n: int, at: int)
    requires
        commands_lie(data, cmds_end, off, n),
        is_command(data, off, n, at),
    ensures
        at + 8 <= data.len(),
        8 <= command_size_at(data, at),
        at + command_size_at(data, at) <= cmds_end,
    decreases n,
{
    if off != at {
        lemma_command_lies(data, cmds_end, off + command_size_at(data, off), n - 1, at);
    }
}

/// The `__LINKEDIT` command that a walk finds lies among the commands.
pub(crate) proof fn lemma_found_linkedit(
    data: Seq<u8>,
    specs: Seq<SegmentModel>,
    cmds_end: int,
    off: int,
    n: int,
    found: InsertScan,
)
    requires
        32 <= off <= cmds_end <= usize::MAX,
        found.linkedit matches Some(l) ==> 32 <= l && l + 72 <= cmds_end,
    ensures
        insert_scan(data, specs, cmds_end, off, n, found) matches Ok(out) ==> (
        out.linkedit matches Some(l) ==> 32 <= l && l + 72 <= cmds_end),
    decreases n,
{
    if n > 0 {
        match super::insert::command_scan(data, specs, off, found) {
            Ok(next) => {
                let size = command_size_at(data, off);
                if off + 8 <= data.len() && size >= 8 && off + size <= cmds_end {
                    lemma_found_linkedit(data, specs, cmds_end, off + size, n - 1, next);
                }
            },
            Err(_) => {},
        }
    }
}

/// What rewriting the load commands leaves as it was.
pub(crate) proof fn lemma_rewritten(
    data: Seq<u8>,
    specs: Seq<SegmentModel>,
    linkedit: int,
    shift: OffsetShift,
)
    requires
        32 <= linkedit,
        linkedit + 72 <= 32 + u32_at(data, 20),
        names_fit(specs),
        new_commands_end(data, specs) <= data.len(),
        commands_lie(data, 32 + u32_at(data, 20), 32, u32_at(data, 16) as int),
        rewritten_commands(data, specs, linkedit, shift).is_ok(),
    ensures
        ({
            let out = rewritten_commands(data, specs, linkedit, shift)->Ok_0;
            let shifted = shifted_commands(data, 32, u32_at(data, 16) as int, shift)->Ok_0;
            &&& out.len() == data.len()
            &&& shifted.len() == data.len()
            &&& forall|i: int| new_commands_end(data, specs) <= i < data.len() ==> out[i] == data[i]
            &&& forall|i: int| 32 <= i < linkedit ==> out[i] == shifted[i]
        }),
{
    broadcast use group_field_len;

    let cmds_end = 32 + u32_at(data, 20);
    let places = super::placement::placements(
        specs,
        page_size(data),
        u64_at(data, linkedit + 24),
        u64_at(data, linkedit + 40),
    );
    let shifted = shifted_commands(data, 32, u32_at(data, 16) as int, shift)->Ok_0;
    lemma_shifted_commands(data, cmds_end, 32, u32_at(data, 16) as int, shift);
    let moved = moved_linkedit(shifted, linkedit, shift.delta as int, shift.growth as int)->Ok_0;
    assert(same_outside(shifted, moved, linkedit, linkedit + 72));
    let commands = segment_commands(specs, places, 0)->Ok_0;
    lemma_segment_commands_len(specs, places, 0);
    let wide = with_commands(moved, linkedit, cmds_end, commands);
    assert(wide.len() == data.len());
    assert forall|i: int| new_commands_end(data, specs) <= i < data.len() implies wide[i]
        == data[i] by {}
    assert forall|i: int| 32 <= i < linkedit implies wide[i] == shifted[i] by {}
}

/// Nothing between the load commands and `__LINKEDIT` changes.
///
/// An image whose `__LINKEDIT` begins before the end of its load commands is left out: there the
/// commands themselves lie in what moves.
pub proof fn law_contents_before_linkedit_kept(data: Seq<u8>, specs: Seq<SegmentModel>)
    requires
        with_segments(data, specs).is_ok(),
        0 < specs.len(),
        new_commands_end(data, specs) <= u64_at(data, linkedit_of(data, specs) + 40),
    ensures
        ({
            let out = with_segments(data, specs)->Ok_0.0;
            let lo = new_commands_end(data, specs);
            let hi = u64_at(data, linkedit_of(data, specs) + 40) as int;
            &&& hi <= out.len()
            &&& hi <= data.len()
            &&& out.subrange(lo, hi) == data.subrange(lo, hi)
        }),
{
    let out = with_segments(data, specs)->Ok_0.0;
    let found = scanned(data, specs);
    let linkedit = linkedit_of(data, specs);
    let cmds_end = 32 + u32_at(data, 20);
    let page = page_size(data);
    let hi = u64_at(data, linkedit + 40) as int;
    let lo = new_commands_end(data, specs);
    let delta = placed_before(specs, page, specs.len() as int);
    let shift = offset_shift(delta, grown_in_image(data, specs, found)->Ok_0);
    lemma_scan_lies(data, specs, cmds_end, 32, u32_at(data, 16) as int, scan_start());
    lemma_found_linkedit(data, specs, cmds_end, 32, u32_at(data, 16) as int, scan_start());
    lemma_rewritten(data, specs, linkedit, shift);
    super::insert::lemma_commands_size(specs, 0);
    let rewritten = rewritten_commands(data, specs, linkedit, shift)->Ok_0;
    assert(out.subrange(lo, hi) =~= rewritten.subrange(lo, hi));
    assert(rewritten.subrange(lo, hi) =~= data.subrange(lo, hi));
}

/// Without chained fixups the contents of `__LINKEDIT` follow the new segments unchanged.
pub proof fn law_linkedit_contents_follow(data: Seq<u8>, specs: Seq<SegmentModel>)
    requires
        with_segments(data, specs).is_ok(),
        0 < specs.len(),
        scanned(data, specs).fixups is None,
        new_commands_end(data, specs) <= u64_at(data, linkedit_of(data, specs) + 40),
    ensures
        ({
            let out = with_segments(data, specs)->Ok_0.0;
            let fileoff = u64_at(data, linkedit_of(data, specs) + 40) as int;
            let delta = placed_before(specs, page_size(data), specs.len() as int);
            &&& out.len() == data.len() + delta
            &&& out.subrange(fileoff + delta, out.len() as int) == data.subrange(
                fileoff,
                data.len() as int,
            )
        }),
{
    let out = with_segments(data, specs)->Ok_0.0;
    let linkedit = linkedit_of(data, specs);
    let cmds_end = 32 + u32_at(data, 20);
    let page = page_size(data);
    let fileoff = u64_at(data, linkedit + 40) as int;
    let n = specs.len() as int;
    let delta = placed_before(specs, page, n);
    let shift = offset_shift(delta, None);
    lemma_scan_lies(data, specs, cmds_end, 32, u32_at(data, 16) as int, scan_start());
    lemma_found_linkedit(data, specs, cmds_end, 32, u32_at(data, 16) as int, scan_start());
    lemma_rewritten(data, specs, linkedit, shift);
    super::insert::lemma_commands_size(specs, 0);
    lemma_placed_bytes(specs, page, n);
    let rewritten = rewritten_commands(data, specs, linkedit, shift)->Ok_0;
    assert(out.subrange(fileoff + delta, out.len() as int) =~= rewritten.subrange(
        fileoff,
        data.len() as int,
    ));
    assert(rewritten.subrange(fileoff, data.len() as int) =~= data.subrange(
        fileoff,
        data.len() as int,
    ));
}

/// The commands of the segments that the image had before `__LINKEDIT` stay as they are: no
/// existing vmaddr changes.
pub proof fn law_existing_segments_kept(data: Seq<u8>, specs: Seq<SegmentModel>, at: int)
    requires
        with_segments(data, specs).is_ok(),
        0 < specs.len(),
        new_commands_end(data, specs) <= u64_at(data, linkedit_of(data, specs) + 40),
        is_command(data, 32, u32_at(data, 16) as int, at),
        command_at(data, at) == LC_SEGMENT_64,
        at + command_size_at(data, at) <= linkedit_of(data, specs),
    ensures
        ({
            let out = with_segments(data, specs)->Ok_0.0;
            let end = at + command_size_at(data, at);
            &&& end <= out.len()
            &&& out.subrange(at, end) == data.subrange(at, end)
        }),
{
    let out = with_segments(data, specs)->Ok_0.0;
    let found = scanned(data, specs);
    let linkedit = linkedit_of(data, specs);
    let cmds_end = 32 + u32_at(data, 20);
    let ncmds = u32_at(data, 16) as int;
    let end = at + command_size_at(data, at);
    let delta = placed_before(specs, page_size(data), specs.len() as int);
    let shift = offset_shift(delta, grown_in_image(data, specs, found)->Ok_0);
    lemma_scan_lies(data, specs, cmds_end, 32, ncmds, scan_start());
    lemma_found_linkedit(data, specs, cmds_end, 32, ncmds, scan_start());
    lemma_rewritten(data, specs, linkedit, shift);
    super::insert::lemma_commands_size(specs, 0);
    lemma_segment_commands_kept(data, cmds_end, 32, ncmds, shift, at);
    let rewritten = rewritten_commands(data, specs, linkedit, shift)->Ok_0;
    let shifted = shifted_commands(data, 32, ncmds, shift)->Ok_0;
    assert(out.subrange(at, end) =~= rewritten.subrange(at, end));
    assert(rewritten.subrange(at, end) =~= shifted.subrange(at, end));
}

} // verus!
