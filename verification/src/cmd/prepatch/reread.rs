//! What preparing an image a second time does.

use vstd::prelude::*;
use vstd::utf8::*;
use crate::bytes::{group_field_len, lemma_u32_at_same, resized, u32_at};
use crate::order::{lemma_sorted_form_exists, sorted_form};
use crate::util::macho::fixups::Segment;
use crate::util::macho::format::{padded_name, MachOError, LINKEDIT_NAME};
use crate::util::macho::image::{file_offset_from, ImageModel};
use crate::util::macho::insert::lemma_commands_size;
use crate::util::macho::listing::{
    has_commands, is_inserted, law_inserted_segments_are_listed,
    law_same_commands_list_the_same_segments, lemma_first_place, lemma_same_listing,
};
use crate::util::macho::relayout::with_segments;
use super::added::{are_branches_outside, has_arena, inserted_at, is_mapped};
use super::apply::{
    applied, arena_segments, ascii_text, with_arena, with_new_records, with_records,
};
use super::arena::{arenas_state, found_segments, generations, scanned, segment_of, ArenasView};
use super::disjoint::{
    are_segments_apart, are_targets_outside, lemma_reusing_is_idempotent, ranges_apart,
};
use super::grown::{
    contents_start, has_arenas, is_clear, is_found_between, is_listed, lemma_growing_is_idempotent,
    maps_as,
};
use super::image::preparable_image;
use super::laws::{
    are_gateways, is_planned, law_plan_is_complete, lemma_branches_kept, lemma_records_kept,
};
use super::plan::{in_report, planned, NewArena, PlanView};
use super::report::{any_failure, DeclarationView, PatchStatus};
use super::rescan::{capacity_of, lemma_gateway_len};
use super::resolve::ResolvedView;
use super::site::{
    arena_code_size, generation_in, law_segment_name_holds_its_generation, name_of_segment,
    CODE_SEGMENT_PREFIX, DATA_SEGMENT_PREFIX,
};
use super::{PrepatchError, PrepatchFault};

verus! {

/// A range that a segment holds is found among the segments up to that one.
proof fn lemma_found_in_front(a: Seq<Segment>, b: Seq<Segment>, from: int, i: int, at: u64, end: int)
    requires
        0 <= from <= i,
        i < a.len(),
        i < b.len(),
        forall|k: int| 0 <= k <= i ==> #[trigger] a[k] == b[k],
        a[i].vmaddr <= at,
        end <= a[i].vmaddr + a[i].filesize,
    ensures
        file_offset_from(a, from, at, end) == file_offset_from(b, from, at, end),
    decreases i - from,
{
    assert(a[from] == b[from]);
    if from < i {
        lemma_found_in_front(a, b, from + 1, i, at, end);
    }
}

/// A range behind the first segments is found in the one that holds it.
proof fn lemma_found_behind(segments: Seq<Segment>, from: int, i: int, at: u64, end: int)
    requires
        0 <= from <= i < segments.len(),
        at < end,
        forall|k: int|
            0 <= k < i ==> (#[trigger] segments[k]).vmaddr + segments[k].filesize <= at,
        segments[i].vmaddr <= at,
        end <= segments[i].vmaddr + segments[i].filesize <= u64::MAX,
        segments[i].fileoff + (at - segments[i].vmaddr) <= usize::MAX,
    ensures
        file_offset_from(segments, from, at, end) == Ok::<usize, MachOError>(
            (segments[i].fileoff + (at - segments[i].vmaddr)) as usize,
        ),
    decreases i - from,
{
    if from < i {
        lemma_found_behind(segments, from + 1, i, at, end);
    }
}

/// What is found of a segment stands in the lists, and what stands there was found.
proof fn lemma_found(segments: Seq<Segment>, n: int)
    requires
        0 <= n <= segments.len() <= usize::MAX,
        found_segments(segments, n) is Ok,
    ensures
        ({
            let (code, data) = found_segments(segments, n)->Ok_0;
            &&& forall|x: int|
                0 <= x < code.len() ==> (#[trigger] code[x]).1 < n && generation_in(
                    segments[code[x].1 as int].name@,
                    CODE_SEGMENT_PREFIX@,
                ) == Some(code[x].0)
            &&& forall|x: int|
                0 <= x < data.len() ==> (#[trigger] data[x]).1 < n && generation_in(
                    segments[data[x].1 as int].name@,
                    CODE_SEGMENT_PREFIX@,
                ) is None && generation_in(
                    segments[data[x].1 as int].name@,
                    DATA_SEGMENT_PREFIX@,
                ) == Some(data[x].0)
            &&& forall|x: int, y: int|
                0 <= x < y < code.len() ==> (#[trigger] code[x]).0 != (#[trigger] code[y]).0
            &&& forall|x: int, y: int|
                0 <= x < y < data.len() ==> (#[trigger] data[x]).0 != (#[trigger] data[y]).0
            &&& forall|i: int|
                0 <= i < n ==> {
                    let name = (#[trigger] segments[i]).name@;
                    &&& generation_in(name, CODE_SEGMENT_PREFIX@) matches Some(g) ==> code.contains(
                        (g, i as usize),
                    )
                    &&& generation_in(name, CODE_SEGMENT_PREFIX@) is None ==> (generation_in(
                        name,
                        DATA_SEGMENT_PREFIX@,
                    ) matches Some(g) ==> data.contains((g, i as usize)))
                }
        }),
    decreases n,
{
    if n > 0 {
        lemma_found(segments, n - 1);
        let (code, data) = found_segments(segments, n - 1)->Ok_0;
        let (more_code, more_data) = found_segments(segments, n)->Ok_0;
        let name = segments[n - 1].name@;
        let at = (n - 1) as usize;
        if let Some(g) = generation_in(name, CODE_SEGMENT_PREFIX@) {
            assert forall|x: int| 0 <= x < code.len() implies (#[trigger] code[x]).0 != g by {
                assert(generations(code)[x] == code[x].0);
            }
            assert(more_code[code.len() as int] == (g, at));
        } else if let Some(g) = generation_in(name, DATA_SEGMENT_PREFIX@) {
            assert forall|x: int| 0 <= x < data.len() implies (#[trigger] data[x]).0 != g by {
                assert(generations(data)[x] == data[x].0);
            }
            assert(more_data[data.len() as int] == (g, at));
        }
        assert forall|i: int| 0 <= i < n implies {
            let name = (#[trigger] segments[i]).name@;
            &&& generation_in(name, CODE_SEGMENT_PREFIX@) matches Some(g) ==> more_code.contains(
                (g, i as usize),
            )
            &&& generation_in(name, CODE_SEGMENT_PREFIX@) is None ==> (generation_in(
                name,
                DATA_SEGMENT_PREFIX@,
            ) matches Some(g) ==> more_data.contains((g, i as usize)))
        } by {
            if i < n - 1 {
                let other = segments[i].name@;
                if let Some(g) = generation_in(other, CODE_SEGMENT_PREFIX@) {
                    let x = choose|x: int| 0 <= x < code.len() && code[x] == (g, i as usize);
                    assert(more_code[x] == code[x]);
                } else if let Some(g) = generation_in(other, DATA_SEGMENT_PREFIX@) {
                    let x = choose|x: int| 0 <= x < data.len() && data[x] == (g, i as usize);
                    assert(more_data[x] == data[x]);
                }
            }
        }
    }
}

/// The segment of a generation is the one that was found for it.
proof fn lemma_segment_of(segments: Seq<Segment>, found: Seq<(u32, usize)>, g: u32, i: usize)
    requires
        forall|x: int, y: int|
            0 <= x < y < found.len() ==> (#[trigger] found[x]).0 != (#[trigger] found[y]).0,
        found.contains((g, i)),
    ensures
        segment_of(segments, found, g) == segments[i as int],
        generations(found).contains(g),
{
    let all = generations(found);
    let x = choose|x: int| 0 <= x < found.len() && found[x] == (g, i);
    assert(all[x] == g);
    all.index_of_first_ensures(g);
    let y = all.index_of_first(g)->Some_0;
    assert(all[y] == found[y].0);
    if y < x {
        assert(found[y].0 != found[x].0);
    }
}

/// An arena has the addresses of the segments of its generation.
proof fn lemma_arena_addresses(
    image: ImageModel,
    order: Seq<u32>,
    code: Seq<(u32, usize)>,
    data: Seq<(u32, usize)>,
    n: int,
)
    requires
        0 <= n,
    ensures
        arenas_state(image, order, code, data, n) matches Ok((arenas, sites)) ==> {
            &&& arenas.len() == n
            &&& forall|k: int|
                0 <= k < n ==> {
                    let segment = segment_of(image.segments, code, order[k]);
                    &&& (#[trigger] arenas[k]).code_vmaddr == segment.vmaddr
                    &&& arenas[k].data_vmaddr == segment_of(image.segments, data, order[k]).vmaddr
                    &&& arena_code_size(capacity_of(image, arenas[k])) <= segment.filesize
                }
        },
    decreases n,
{
    if n > 0 {
        lemma_arena_addresses(image, order, code, data, n - 1);
        if let Ok((arenas, sites)) = arenas_state(image, order, code, data, n) {
            let (fewer, earlier) = arenas_state(image, order, code, data, n - 1)->Ok_0;
            assert(arenas == fewer.push(arenas.last()));
        }
    }
}

/// The segments of an arena that a scan finds.
proof fn lemma_arena_segments(image: ImageModel, found: ArenasView, k: int) -> (r: (int, int, u32))
    requires
        scanned(image) == Ok::<ArenasView, PrepatchError>(found),
        image.segments.len() <= usize::MAX,
        0 <= k < found.arenas.len(),
    ensures
        ({
            let (i, j, g) = r;
            let (code, data) = (image.segments[i], image.segments[j]);
            &&& 0 <= i < image.segments.len()
            &&& 0 <= j < image.segments.len()
            &&& generation_in(code.name@, CODE_SEGMENT_PREFIX@) == Some(g)
            &&& generation_in(data.name@, CODE_SEGMENT_PREFIX@) is None
            &&& generation_in(data.name@, DATA_SEGMENT_PREFIX@) == Some(g)
            &&& found.arenas[k].code_vmaddr == code.vmaddr
            &&& found.arenas[k].data_vmaddr == data.vmaddr
            &&& arena_code_size(capacity_of(image, found.arenas[k])) <= code.filesize
        }),
{
    let n = image.segments.len() as int;
    let (code, data) = found_segments(image.segments, n)->Ok_0;
    let order = sorted_form::<u32>(generations(code));
    lemma_found(image.segments, n);
    lemma_arena_addresses(image, order, code, data, order.len() as int);
    lemma_sorted_form_exists::<u32>(generations(code));
    lemma_sorted_form_exists::<u32>(generations(data));
    let g = order[k];
    assert(order.contains(g));
    assert(generations(code).contains(g));
    assert(generations(data).contains(g));
    let x = choose|x: int| 0 <= x < code.len() && generations(code)[x] == g;
    let y = choose|y: int| 0 <= y < data.len() && generations(data)[y] == g;
    let (i, j) = (code[x].1, data[y].1);
    assert(code[x] == (g, i) && data[y] == (g, j));
    assert(code.contains((g, i)) && data.contains((g, j)));
    lemma_segment_of(image.segments, code, g, i);
    lemma_segment_of(image.segments, data, g, j);
    (i as int, j as int, g)
}

/// A scan lists the arena whose segments an image has.
proof fn lemma_arena_listed(image: ImageModel, now: ArenasView, i: int, j: int, g: u32) -> (m: int)
    requires
        scanned(image) == Ok::<ArenasView, PrepatchError>(now),
        image.segments.len() <= usize::MAX,
        0 <= i < image.segments.len(),
        0 <= j < image.segments.len(),
        generation_in(image.segments[i].name@, CODE_SEGMENT_PREFIX@) == Some(g),
        generation_in(image.segments[j].name@, CODE_SEGMENT_PREFIX@) is None,
        generation_in(image.segments[j].name@, DATA_SEGMENT_PREFIX@) == Some(g),
    ensures
        0 <= m < now.arenas.len(),
        now.arenas[m].code_vmaddr == image.segments[i].vmaddr,
        now.arenas[m].data_vmaddr == image.segments[j].vmaddr,
{
    let n = image.segments.len() as int;
    let (code, data) = found_segments(image.segments, n)->Ok_0;
    let order = sorted_form::<u32>(generations(code));
    lemma_found(image.segments, n);
    lemma_arena_addresses(image, order, code, data, order.len() as int);
    lemma_sorted_form_exists::<u32>(generations(code));
    lemma_segment_of(image.segments, code, g, i as usize);
    lemma_segment_of(image.segments, data, g, j as usize);
    assert(order.contains(g));
    choose|m: int| 0 <= m < order.len() && order[m] == g
}

/// The stored name of a new arena's segment tells its generation.
proof fn lemma_stored_name(prefix: Seq<u8>, generation: u32)
    requires
        prefix.len() == 8,
        padded_name(ascii_text(name_of_segment(prefix, generation))) is Ok,
    ensures
        padded_name(ascii_text(name_of_segment(prefix, generation)))->Ok_0 == name_of_segment(
            prefix,
            generation,
        ),
{
    let name = name_of_segment(prefix, generation);
    let text = ascii_text(name);
    law_segment_name_holds_its_generation(prefix, generation);
    is_ascii_chars_encode_utf8(text);
    assert forall|i: int| 0 <= i < 16 implies encode_utf8(text)[i] == name[i] by {
        assert(text[i] as u8 == encode_utf8(text)[i]);
    }
    assert(resized(encode_utf8(text), 16) =~= name);
}

/// Whether carrying out a plan writes nothing into the first `end` bytes of the file.
pub open spec fn spares(image: ImageModel, plan: PlanView, end: int) -> bool {
    forall|j: int|
        0 <= j < end ==> !(#[trigger] is_planned(image, plan, j, plan.sites.len() as int))
}

/// Whether the last of the segments also stands last in memory.
pub open spec fn is_last_highest(segments: Seq<Segment>) -> bool {
    forall|i: int|
        0 <= i < segments.len() - 1 ==> (#[trigger] segments[i]).vmaddr + segments[i].filesize
            <= segments.last().vmaddr
}

/// Whether an image is laid out so that carrying out a plan does not write over its load commands
/// and arenas: its segments do not overlap, no target lies in an arena or in the load commands, and
/// where an arena is added, `__LINKEDIT` stands behind the load commands, behind the arenas and behind
/// the other segments, and no target lies behind its start.
pub open spec fn is_orderly(image: ImageModel, found: ArenasView, plan: PlanView) -> bool {
    &&& has_commands(image.data)
    &&& are_segments_apart(image.segments)
    &&& are_targets_outside(image, found.arenas, plan)
    &&& match plan.new_arena {
        None => spares(image, plan, 32 + u32_at(image.data, 20)),
        Some(arena) => {
            let start = contents_start(image.data, image, plan, arena);
            let at = inserted_at(image.data, image, plan, arena);
            &&& start <= at
            &&& spares(image, plan, start)
            &&& are_branches_outside(image, plan, at, arena_code_size(arena.capacity as int))
            &&& is_last_highest(image.segments)
            &&& forall|k: int|
                0 <= k < found.arenas.len() ==> is_found_between(
                    image,
                    (#[trigger] found.arenas[k]).code_vmaddr,
                    arena_code_size(capacity_of(image, found.arenas[k])),
                    start,
                    at,
                )
        },
    }
}

/// Without a new arena the file lists the segments that it listed.
proof fn lemma_same_segments(image: ImageModel, plan: PlanView, prepared: ImageModel)
    requires
        image.is_read(),
        prepared.is_read(),
        plan.new_arena is None,
        are_gateways(plan),
        has_commands(image.data),
        spares(image, plan, 32 + u32_at(image.data, 20)),
        applied(image.data, image, plan) == Ok::<Seq<u8>, PrepatchFault>(prepared.data),
    ensures
        prepared.segments == image.segments,
{
    let n = plan.sites.len() as int;
    lemma_records_kept(image.data, image, plan, n);
    let written = with_records(image.data, image, plan, n)->Ok_0;
    lemma_branches_kept(written, image, plan, n);
    assert forall|i: int| 0 <= i < 32 + u32_at(image.data, 20) implies #[trigger] image.data[i]
        == prepared.data[i] by {
        assert(!is_planned(image, plan, i, n));
    }
    law_same_commands_list_the_same_segments(
        image.data,
        image.segments,
        prepared.data,
        prepared.segments,
    );
}

/// With a new arena the file lists the segments in front of `__LINKEDIT`, and behind them those of
/// the arena.
proof fn lemma_grown_segments(
    image: ImageModel,
    found: ArenasView,
    plan: PlanView,
    arena: NewArena,
    prepared: ImageModel,
)
    requires
        image.is_read(),
        prepared.is_read(),
        plan.new_arena == Some(arena),
        are_gateways(plan),
        is_orderly(image, found, plan),
        applied(image.data, image, plan) == Ok::<Seq<u8>, PrepatchFault>(prepared.data),
    ensures
        ({
            let before = image.segments.len() - 1;
            let at = inserted_at(image.data, image, plan, arena);
            let code = prepared.segments[before];
            let data = prepared.segments[before + 1];
            &&& 0 <= before
            &&& image.segments[before].name@ == LINKEDIT_NAME@
            &&& image.segments[before].vmaddr == arena.code_vmaddr
            &&& before + 2 <= prepared.segments.len()
            &&& forall|i: int|
                0 <= i < before ==> #[trigger] prepared.segments[i] == image.segments[i]
            &&& code.name@ == name_of_segment(CODE_SEGMENT_PREFIX@, arena.generation)
            &&& data.name@ == name_of_segment(DATA_SEGMENT_PREFIX@, arena.generation)
            &&& code.vmaddr == arena.code_vmaddr
            &&& data.vmaddr == arena.data_vmaddr
            &&& code.fileoff == at
            &&& arena_code_size(arena.capacity as int) <= code.filesize
            &&& code.vmaddr + code.filesize <= u64::MAX
            &&& at + arena_code_size(arena.capacity as int) <= usize::MAX
        }),
{
    let n = plan.sites.len() as int;
    let start = contents_start(image.data, image, plan, arena);
    lemma_records_kept(image.data, image, plan, n);
    let written = with_records(image.data, image, plan, n)->Ok_0;
    let code = with_new_records(plan, arena, n)->Ok_0;
    let specs = arena_segments(arena, code);
    let (grown, places) = with_segments(written, specs)->Ok_0;
    assert(with_arena(written, plan) == Ok::<Seq<u8>, PrepatchError>(grown));
    lemma_branches_kept(grown, image, plan, n);
    lemma_first_place(written, specs);
    lemma_code_len(plan, arena, n);
    assert(specs[0].data == code);
    let cmds_end = 32 + u32_at(image.data, 20);
    assert forall|i: int| 0 <= i < start implies #[trigger] image.data[i] == written[i] by {
        assert(!is_planned(image, plan, i, n));
    }
    lemma_commands_size(specs, 0);
    assert(image.data.subrange(20, 24) =~= written.subrange(20, 24));
    lemma_u32_at_same(image.data, 20, written, 20);
    lemma_same_listing(image.data, image.segments, written);
    assert forall|i: int| 0 <= i < start implies #[trigger] prepared.data[i] == grown[i] by {
        assert(!is_planned(image, plan, i, n));
    }
    law_inserted_segments_are_listed(
        written,
        specs,
        image.segments,
        prepared.data,
        prepared.segments,
    );
    let before = image.segments.len() - 1;
    assert forall|i: int| 0 <= i < before implies #[trigger] prepared.segments[i]
        == image.segments[i] by {
        assert(prepared.segments.subrange(0, before)[i] == image.segments.subrange(0, before)[i]);
    }
    assert(is_inserted(prepared.segments[before + 0], specs[0], places[0]));
    assert(is_inserted(prepared.segments[before + 1], specs[1], places[1]));
    assert(padded_name(specs[0].name) is Ok && padded_name(specs[1].name) is Ok);
    lemma_stored_name(CODE_SEGMENT_PREFIX@, arena.generation);
    lemma_stored_name(DATA_SEGMENT_PREFIX@, arena.generation);
}

proof fn lemma_code_len(plan: PlanView, arena: NewArena, n: int)
    requires
        0 <= n,
    ensures
        with_new_records(plan, arena, n) matches Ok(code) ==> code.len() == arena_code_size(
            arena.capacity as int,
        ),
    decreases n,
{
    broadcast use group_field_len;

    if n > 0 {
        lemma_code_len(plan, arena, n - 1);
    }
}

/// The image has the new arena, and still has the others.
proof fn lemma_has_arenas(
    image: ImageModel,
    found: ArenasView,
    plan: PlanView,
    arena: NewArena,
    prepared: ImageModel,
    now: ArenasView,
)
    requires
        image.is_read(),
        prepared.is_read(),
        scanned(image) == Ok::<ArenasView, PrepatchError>(found),
        scanned(prepared) == Ok::<ArenasView, PrepatchError>(now),
        plan.new_arena == Some(arena),
        are_gateways(plan),
        is_orderly(image, found, plan),
        applied(image.data, image, plan) == Ok::<Seq<u8>, PrepatchFault>(prepared.data),
    ensures
        has_arena(prepared, now.arenas, arena, inserted_at(image.data, image, plan, arena)),
        has_arenas(prepared, now.arenas, image, found.arenas),
        is_clear(image, found, plan, arena),
{
    let before = image.segments.len() - 1;
    let at = inserted_at(image.data, image, plan, arena);
    let size = arena_code_size(arena.capacity as int);
    lemma_grown_segments(image, found, plan, arena, prepared);
    lemma_new_names(arena.generation);
    let m = lemma_arena_listed(prepared, now, before, before + 1, arena.generation);
    assert(now.arenas[m].code_vmaddr == arena.code_vmaddr);
    assert forall|a: u64, n: int|
        arena.code_vmaddr <= a && 0 < n && a + n <= arena.code_vmaddr + size implies (
    #[trigger] prepared.file_offset(a, n) matches Ok(x) && x == at + (a - arena.code_vmaddr)) by {
        assert forall|k: int| 0 <= k < before implies (#[trigger] prepared.segments[k]).vmaddr
            + prepared.segments[k].filesize <= a by {
            assert(prepared.segments[k] == image.segments[k]);
            assert(image.segments[k].vmaddr + image.segments[k].filesize
                <= image.segments.last().vmaddr);
        }
        lemma_found_behind(prepared.segments, 0, before, a, a + n);
    }
    assert(is_mapped(prepared, arena.code_vmaddr, at, size));
    assert forall|k: int| 0 <= k < found.arenas.len() implies is_listed(
        now.arenas,
        #[trigger] found.arenas[k],
    ) && maps_as(
        prepared,
        image,
        found.arenas[k].code_vmaddr,
        arena_code_size(capacity_of(image, found.arenas[k])),
    ) && ranges_apart(
        found.arenas[k].code_vmaddr as int,
        arena_code_size(capacity_of(image, found.arenas[k])),
        arena.code_vmaddr as int,
        arena.data_vmaddr - arena.code_vmaddr,
    ) by {
        let old_arena = found.arenas[k];
        let code_size = arena_code_size(capacity_of(image, old_arena));
        let (i, j, g) = lemma_arena_segments(image, found, k);
        lemma_linkedit_is_no_arena();
        assert(i != before && j != before);
        assert(prepared.segments[i] == image.segments[i]);
        assert(prepared.segments[j] == image.segments[j]);
        let m = lemma_arena_listed(prepared, now, i, j, g);
        assert(now.arenas[m].code_vmaddr == old_arena.code_vmaddr);
        assert(image.segments[i].vmaddr + image.segments[i].filesize
            <= image.segments.last().vmaddr);
        assert forall|a: u64, n: int|
            old_arena.code_vmaddr <= a && 0 < n && a + n <= old_arena.code_vmaddr
                + code_size implies #[trigger] prepared.file_offset(a, n) == image.file_offset(
            a,
            n,
        ) by {
            lemma_found_in_front(prepared.segments, image.segments, 0, i, a, a + n);
        }
    }
}

/// The names of the segments of a new arena tell which is which.
proof fn lemma_new_names(generation: u32)
    ensures
        ({
            let code = name_of_segment(CODE_SEGMENT_PREFIX@, generation);
            let data = name_of_segment(DATA_SEGMENT_PREFIX@, generation);
            &&& generation_in(code, CODE_SEGMENT_PREFIX@) == Some(generation)
            &&& generation_in(data, CODE_SEGMENT_PREFIX@) is None
            &&& generation_in(data, DATA_SEGMENT_PREFIX@) == Some(generation)
        }),
{
    law_segment_name_holds_its_generation(CODE_SEGMENT_PREFIX@, generation);
    law_segment_name_holds_its_generation(DATA_SEGMENT_PREFIX@, generation);
    let data = name_of_segment(DATA_SEGMENT_PREFIX@, generation);
    assert(data.subrange(0, 8)[4] == DATA_SEGMENT_PREFIX@[4]);
    assert(CODE_SEGMENT_PREFIX@[4] != DATA_SEGMENT_PREFIX@[4]);
}

/// `__LINKEDIT` is not the name of an arena's segment.
proof fn lemma_linkedit_is_no_arena()
    ensures
        generation_in(LINKEDIT_NAME@, CODE_SEGMENT_PREFIX@) is None,
        generation_in(LINKEDIT_NAME@, DATA_SEGMENT_PREFIX@) is None,
{
    assert(LINKEDIT_NAME@.subrange(0, 8)[2] == LINKEDIT_NAME@[2]);
    assert(CODE_SEGMENT_PREFIX@[2] != LINKEDIT_NAME@[2]);
    assert(DATA_SEGMENT_PREFIX@[2] != LINKEDIT_NAME@[2]);
}

/// Preparing an image a second time changes nothing: with the image that a plan gives, planning for
/// the same declarations finds nothing left to add, and reports each of them as existing. The images
/// are as they are read from their files.
///
/// An image that is not laid out in an orderly way is left out: there a branch or a record can be
/// written over the load commands or over an arena.
pub proof fn law_second_preparing_changes_nothing(
    image: ImageModel,
    found: ArenasView,
    resolved: Seq<ResolvedView>,
    declarations: Seq<DeclarationView>,
    plan: PlanView,
    prepared: ImageModel,
    again: Seq<DeclarationView>,
)
    requires
        image.is_read(),
        prepared.is_read(),
        in_report(resolved, declarations.len() as int),
        scanned(image) == Ok::<ArenasView, PrepatchError>(found),
        planned(image, resolved, declarations).outcome == Ok::<Option<PlanView>, PrepatchError>(
            Some(plan),
        ),
        is_orderly(image, found, plan),
        applied(image.data, image, plan) matches Ok(out) && preparable_image(out) == Ok::<
            ImageModel,
            PrepatchError,
        >(prepared),
        in_report(resolved, again.len() as int),
        !any_failure(again),
    ensures
        ({
            let all = planned(prepared, resolved, again);
            &&& all.outcome == Ok::<Option<PlanView>, PrepatchError>(None)
            &&& forall|i: int|
                0 <= i < resolved.len() ==> all.declarations[(
                #[trigger] resolved[i]).report_index as int].patch_status == Some(
                    PatchStatus::Existing,
                )
        }),
{
    law_plan_is_complete(image, resolved, declarations);
    assert forall|i: int| 0 <= i < plan.sites.len() implies (
    #[trigger] plan.sites[i]).1.instructions.len() == 7 by {
        lemma_gateway_len(plan.sites[i]);
    }
    match plan.new_arena {
        None => {
            lemma_same_segments(image, plan, prepared);
            lemma_reusing_is_idempotent(
                image,
                found,
                resolved,
                declarations,
                plan,
                prepared,
                again,
            );
        },
        Some(arena) => {
            let now = scanned(prepared)->Ok_0;
            lemma_has_arenas(image, found, plan, arena, prepared, now);
            lemma_growing_is_idempotent(
                image,
                found,
                resolved,
                declarations,
                plan,
                arena,
                prepared,
                now,
                again,
            );
        },
    }
}

} // verus!
