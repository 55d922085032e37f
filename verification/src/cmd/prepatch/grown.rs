//! What a scan finds of an image that had arenas and got another one.

use vstd::prelude::*;
use crate::bytes::lemma_align_int;
use crate::util::macho::format::MachOError;
use crate::util::macho::image::ImageModel;
use crate::util::macho::insert::lemma_commands_size;
use crate::util::macho::laws::{law_contents_before_linkedit_kept, new_commands_end};
use crate::util::macho::relayout::with_segments;
use super::added::{
    are_branches_outside, are_new_records_apart, has_arena, inserted_at, lemma_new_sites_are_found,
    lemma_branches_outside, lemma_remaining_placed,
};
use super::apply::{
    applied, arena_segments, in_new_arena, with_arena, with_new_records, with_records,
};
use super::arena::{is_sited, scanned, site_targets, ArenaView, ArenasView};
use super::disjoint::{
    are_placed_apart, are_segments_apart, are_targets_outside, is_placed_before, lemma_apart,
    lemma_arenas_apart, lemma_arenas_placed_apart, lemma_heads_read, lemma_keeps_arenas,
    ranges_apart,
};
use super::image::preparable_image;
use super::laws::{
    are_gateways, holds_record, is_apart, is_planned, law_plan_is_complete,
    law_planning_is_idempotent, lemma_records_held, lemma_records_kept,
};
use super::plan::{
    checked_targets, in_report, lemma_planned, lemma_remaining, placed_in_free, planned,
    with_remaining, NewArena, Placing, PlanView,
};
use super::report::{any_failure, DeclarationView, PatchStatus};
use super::rescan::{
    capacity_of, is_place, is_recorded_at, is_untouched, is_written, keeps_arenas,
    law_scanned_sites_are_recorded, lemma_gateway_len,
};
use super::resolve::ResolvedView;
use super::site::{
    arena_code_size, law_arena_fills_its_pages, ARENA_HEADER_SIZE, PAGE_SIZE, RECORD_SIZE,
};
use super::{PrepatchError, PrepatchFault};

verus! {

/// Where the contents of the file begin once the load commands of a new arena are among the others.
pub open spec fn contents_start(
    original: Seq<u8>,
    image: ImageModel,
    plan: PlanView,
    arena: NewArena,
) -> int {
    let n = plan.sites.len() as int;
    let written = with_records(original, image, plan, n)->Ok_0;
    let code = with_new_records(plan, arena, n)->Ok_0;
    new_commands_end(written, arena_segments(arena, code))
}

/// Whether an arena is listed under its addresses.
pub open spec fn is_listed(listed: Seq<ArenaView>, arena: ArenaView) -> bool {
    exists|m: int|
        0 <= m < listed.len() && (#[trigger] listed[m]).code_vmaddr == arena.code_vmaddr
            && listed[m].data_vmaddr == arena.data_vmaddr
}

/// Whether two images find a range of addresses at the same place of the file.
pub open spec fn maps_as(one: ImageModel, other: ImageModel, address: u64, size: int) -> bool {
    forall|a: u64, n: int|
        address <= a && 0 < n && a + n <= address + size ==> #[trigger] one.file_offset(a, n)
            == other.file_offset(a, n)
}

/// Whether a range of addresses is found only between two places of the file.
pub open spec fn is_found_between(
    image: ImageModel,
    address: u64,
    size: int,
    lo: int,
    hi: int,
) -> bool {
    forall|a: u64, n: int|
        address <= a && 0 < n && a + n <= address + size ==> (#[trigger] image.file_offset(a, n)
            matches Ok(at) ==> lo <= at && at + n <= hi)
}

/// Whether an image still has the arenas of another one: each is listed, and found where it was.
pub open spec fn has_arenas(
    prepared: ImageModel,
    listed: Seq<ArenaView>,
    image: ImageModel,
    arenas: Seq<ArenaView>,
) -> bool {
    forall|k: int|
        0 <= k < arenas.len() ==> is_listed(listed, #[trigger] arenas[k]) && maps_as(
            prepared,
            image,
            arenas[k].code_vmaddr,
            arena_code_size(capacity_of(image, arenas[k])),
        )
}

/// Whether the arenas of an image lie outside a new one, and in the file between two places.
pub open spec fn are_arenas_clear(
    image: ImageModel,
    arenas: Seq<ArenaView>,
    arena: NewArena,
    lo: int,
    hi: int,
) -> bool {
    forall|k: int|
        0 <= k < arenas.len() ==> ranges_apart(
            (#[trigger] arenas[k]).code_vmaddr as int,
            arena_code_size(capacity_of(image, arenas[k])),
            arena.code_vmaddr as int,
            arena.data_vmaddr - arena.code_vmaddr,
        ) && is_found_between(
            image,
            arenas[k].code_vmaddr,
            arena_code_size(capacity_of(image, arenas[k])),
            lo,
            hi,
        )
}

/// What of a plan goes to free records of the arenas that are there: its first `from` sites.
pub open spec fn reused_part(plan: PlanView, from: int) -> PlanView {
    PlanView { sites: plan.sites.subrange(0, from), new_arena: None }
}

proof fn lemma_remaining_prefix(
    so_far: Placing,
    resolved: Seq<ResolvedView>,
    missing: Seq<u64>,
    from: int,
    arena: NewArena,
    n: int,
)
    ensures
        ({
            let placed = with_remaining(so_far, resolved, missing, from, arena, n).placed;
            &&& so_far.placed.len() <= placed.len()
            &&& placed.subrange(0, so_far.placed.len() as int) == so_far.placed
        }),
    decreases n,
{
    if n > 0 {
        lemma_remaining_prefix(so_far, resolved, missing, from, arena, n - 1);
        let before = with_remaining(so_far, resolved, missing, from, arena, n - 1).placed;
        let after = with_remaining(so_far, resolved, missing, from, arena, n).placed;
        let count = so_far.placed.len() as int;
        assert(after.subrange(0, count) =~= before.subrange(0, count));
    } else {
        assert(so_far.placed.subrange(0, so_far.placed.len() as int) =~= so_far.placed);
    }
}

/// Whether a plan has its first `from` sites in free records of the arenas, no two of which overlap,
/// and the others in a new arena, one behind the other.
spec fn is_split(found: ArenasView, plan: PlanView, arena: NewArena, from: int) -> bool {
    &&& plan.new_arena == Some(arena)
    &&& 0 <= from <= plan.sites.len()
    &&& are_placed_apart(
        found.arenas,
        plan.sites.subrange(0, from),
        found.arenas.len() as int,
        0,
    )
    &&& plan.sites.len() - from <= arena.capacity
    &&& arena.code_vmaddr + arena_code_size(arena.capacity as int) <= arena.data_vmaddr
    &&& forall|i: int|
        from <= i < plan.sites.len() ==> {
            &&& (#[trigger] plan.sites[i]).1.record == arena.code_vmaddr + ARENA_HEADER_SIZE + (i
                - from) * RECORD_SIZE
            &&& plan.sites[i].1.slot == arena.data_vmaddr + (i - from) * 8
        }
}

proof fn lemma_split(
    image: ImageModel,
    found: ArenasView,
    resolved: Seq<ResolvedView>,
    declarations: Seq<DeclarationView>,
    plan: PlanView,
    arena: NewArena,
) -> (from: int)
    requires
        in_report(resolved, declarations.len() as int),
        scanned(image) == Ok::<ArenasView, PrepatchError>(found),
        planned(image, resolved, declarations).outcome == Ok::<Option<PlanView>, PrepatchError>(
            Some(plan),
        ),
        plan.new_arena == Some(arena),
        image.segments.len() <= usize::MAX,
        are_segments_apart(image.segments),
    ensures
        is_split(found, plan, arena, from),
{
    let c = checked_targets(image, found, resolved, declarations);
    let p = placed_in_free(found, resolved, c);
    lemma_planned(image, found, resolved, declarations);
    let count = c.missing.len() - p.next;
    let none = Placing {
        declarations: c.declarations,
        placed: Seq::empty(),
        next: 0,
        fault: None,
    };
    lemma_arenas_apart(image, found);
    lemma_arenas_placed_apart(
        image,
        none,
        resolved,
        c.missing,
        found.arenas,
        found.arenas.len() as int,
    );
    lemma_remaining(p, resolved, c.missing, p.next, arena, count);
    lemma_remaining_placed(p, resolved, c.missing, p.next, arena, count);
    lemma_remaining_prefix(p, resolved, c.missing, p.next, arena, count);
    law_arena_fills_its_pages(count as u32);
    lemma_align_int(arena_code_size(arena.capacity as int), PAGE_SIZE as int);
    p.placed.len() as int
}

/// Whether the arenas of an image stand clear of what a plan with a new arena does to the file.
pub open spec fn is_clear(
    image: ImageModel,
    found: ArenasView,
    plan: PlanView,
    arena: NewArena,
) -> bool {
    let at = inserted_at(image.data, image, plan, arena);
    &&& image.segments.len() <= usize::MAX
    &&& are_segments_apart(image.segments)
    &&& are_targets_outside(image, found.arenas, plan)
    &&& are_branches_outside(image, plan, at, arena_code_size(arena.capacity as int))
    &&& are_arenas_clear(
        image,
        found.arenas,
        arena,
        contents_start(image.data, image, plan, arena),
        at,
    )
}

/// The first sites of a plan stand outside its new arena, the others in it.
proof fn lemma_sides(
    image: ImageModel,
    found: ArenasView,
    plan: PlanView,
    arena: NewArena,
    from: int,
)
    requires
        scanned(image) == Ok::<ArenasView, PrepatchError>(found),
        is_split(found, plan, arena, from),
        is_clear(image, found, plan, arena),
    ensures
        forall|i: int|
            0 <= i < plan.sites.len() ==> (in_new_arena(
                Some(arena),
                (#[trigger] plan.sites[i]).1.record,
            ) <==> from <= i),
        are_new_records_apart(plan, arena),
{
    assert forall|i: int| 0 <= i < plan.sites.len() implies (in_new_arena(
        Some(arena),
        (#[trigger] plan.sites[i]).1.record,
    ) <==> from <= i) by {
        if i < from {
            let (k, x) = lemma_place_of(image, found, plan, arena, from, i);
            let old_arena = found.arenas[k];
            assert(ranges_apart(
                old_arena.code_vmaddr as int,
                arena_code_size(capacity_of(image, old_arena)),
                arena.code_vmaddr as int,
                arena.data_vmaddr - arena.code_vmaddr,
            ));
        }
    }
}

/// The place of one of the first sites of a plan.
proof fn lemma_place_of(
    image: ImageModel,
    found: ArenasView,
    plan: PlanView,
    arena: NewArena,
    from: int,
    i: int,
) -> (r: (int, int))
    requires
        scanned(image) == Ok::<ArenasView, PrepatchError>(found),
        is_split(found, plan, arena, from),
        is_clear(image, found, plan, arena),
        0 <= i < from,
    ensures
        0 <= r.0 < found.arenas.len(),
        0 <= r.1 < capacity_of(image, found.arenas[r.0]),
        is_place(found.arenas[r.0], r.1, plan.sites[i]),
{
    let arenas = found.arenas;
    let last = arenas.len() as int;
    let site = plan.sites[i];
    lemma_arenas_apart(image, found);
    assert(plan.sites.subrange(0, from)[i] == site);
    assert(is_placed_before(arenas, site, last, 0));
    let (k, x) = choose|k: int, x: int|
        0 <= k < arenas.len() && 0 <= x < arenas[k].free_indices.len() && (k < last || k == last && x
            < 0) && is_place(arenas[k], #[trigger] arenas[k].free_indices[x] as int, site);
    (k, arenas[k].free_indices[x] as int)
}

/// Only the first sites of a plan are written into the arenas that are there.
proof fn lemma_records_split(
    original: Seq<u8>,
    image: ImageModel,
    plan: PlanView,
    from: int,
    n: int,
)
    requires
        0 <= from <= plan.sites.len(),
        0 <= n <= plan.sites.len(),
        forall|i: int|
            0 <= i < plan.sites.len() ==> (in_new_arena(
                plan.new_arena,
                (#[trigger] plan.sites[i]).1.record,
            ) <==> from <= i),
    ensures
        with_records(original, image, plan, n) == with_records(
            original,
            image,
            reused_part(plan, from),
            if n < from {
                n
            } else {
                from
            },
        ),
    decreases n,
{
    if n > 0 {
        lemma_records_split(original, image, plan, from, n - 1);
        assert(in_new_arena(plan.new_arena, plan.sites[n - 1].1.record) <==> from <= n - 1);
        if n <= from {
            assert(reused_part(plan, from).sites[n - 1] == plan.sites[n - 1]);
        }
    }
}

/// Whether an image is the one that a plan with a new arena makes of another.
spec fn is_grown(
    image: ImageModel,
    found: ArenasView,
    plan: PlanView,
    arena: NewArena,
    from: int,
    prepared: ImageModel,
    now: ArenasView,
) -> bool {
    &&& scanned(image) == Ok::<ArenasView, PrepatchError>(found)
    &&& scanned(prepared) == Ok::<ArenasView, PrepatchError>(now)
    &&& is_split(found, plan, arena, from)
    &&& is_clear(image, found, plan, arena)
    &&& are_gateways(plan)
    &&& applied(image.data, image, plan) == Ok::<Seq<u8>, PrepatchFault>(prepared.data)
    &&& has_arenas(prepared, now.arenas, image, found.arenas)
}

/// What was written between the load commands and the new arena stands in the file, where no branch
/// falls.
proof fn lemma_contents_kept(
    image: ImageModel,
    plan: PlanView,
    arena: NewArena,
    out: Seq<u8>,
    at: int,
    size: int,
)
    requires
        plan.new_arena == Some(arena),
        applied(image.data, image, plan) == Ok::<Seq<u8>, PrepatchFault>(out),
        0 <= size,
        contents_start(image.data, image, plan, arena) <= at,
        at + size <= inserted_at(image.data, image, plan, arena),
        are_branches_outside(image, plan, at, size),
    ensures
        ({
            let written = with_records(image.data, image, plan, plan.sites.len() as int)->Ok_0;
            &&& with_records(image.data, image, plan, plan.sites.len() as int) is Ok
            &&& 0 <= at
            &&& at + size <= out.len()
            &&& at + size <= written.len()
            &&& out.subrange(at, at + size) == written.subrange(at, at + size)
        }),
{
    let n = plan.sites.len() as int;
    let written = with_records(image.data, image, plan, n)->Ok_0;
    let code = with_new_records(plan, arena, n)->Ok_0;
    let segments = arena_segments(arena, code);
    let lo = new_commands_end(written, segments);
    let hi = inserted_at(image.data, image, plan, arena);
    lemma_commands_size(segments, 0);
    law_contents_before_linkedit_kept(written, segments);
    let grown = with_segments(written, segments)->Ok_0.0;
    assert(grown.subrange(lo, hi) == written.subrange(lo, hi));
    assert(grown.subrange(at, at + size) =~= grown.subrange(lo, hi).subrange(
        at - lo,
        at - lo + size,
    ));
    assert(written.subrange(at, at + size) =~= written.subrange(lo, hi).subrange(
        at - lo,
        at - lo + size,
    ));
    assert(with_arena(written, plan) == Ok::<Seq<u8>, PrepatchError>(grown));
    lemma_branches_outside(grown, image, plan, n, at, size);
}

/// What an arena held and the plan does not touch, it still holds.
proof fn lemma_arena_kept(
    image: ImageModel,
    found: ArenasView,
    plan: PlanView,
    arena: NewArena,
    from: int,
    prepared: ImageModel,
    now: ArenasView,
    k: int,
    address: u64,
    size: int,
)
    requires
        is_grown(image, found, plan, arena, from, prepared, now),
        0 <= k < found.arenas.len(),
        0 < size,
        found.arenas[k].code_vmaddr <= address,
        address + size <= found.arenas[k].code_vmaddr + arena_code_size(
            capacity_of(image, found.arenas[k]),
        ),
        image.file_offset(address, size) is Ok,
    ensures
        ({
            let n = plan.sites.len() as int;
            let at = image.file_offset(address, size)->Ok_0;
            let written = with_records(image.data, image, plan, n)->Ok_0;
            &&& with_records(image.data, image, plan, n) is Ok
            &&& at + size <= written.len()
            &&& prepared.bytes(address, size) == Ok::<Seq<u8>, MachOError>(
                written.subrange(at as int, at + size),
            )
        }),
{
    let old_arena = found.arenas[k];
    let at = image.file_offset(address, size)->Ok_0 as int;
    assert(prepared.file_offset(address, size) == image.file_offset(address, size));
    assert forall|i: int| 0 <= i < plan.sites.len() implies (image.file_offset(
        (#[trigger] plan.sites[i]).0,
        4,
    ) matches Ok(t) ==> ranges_apart(t as int, 4, at, size)) by {
        let target = plan.sites[i].0;
        assert(ranges_apart(
            target as int,
            4,
            old_arena.code_vmaddr as int,
            arena_code_size(capacity_of(image, old_arena)),
        ));
        lemma_apart(image, target, 4, address, size);
    }
    assert(are_branches_outside(image, plan, at, size));
    lemma_contents_kept(image, plan, arena, prepared.data, at, size);
}

/// What the first sites of a plan leave alone in the file.
proof fn lemma_written_kept(
    image: ImageModel,
    found: ArenasView,
    plan: PlanView,
    arena: NewArena,
    from: int,
    address: u64,
    size: int,
)
    requires
        scanned(image) == Ok::<ArenasView, PrepatchError>(found),
        is_split(found, plan, arena, from),
        is_clear(image, found, plan, arena),
        are_gateways(plan),
        with_records(image.data, image, plan, plan.sites.len() as int) is Ok,
        0 < size,
        image.file_offset(address, size) matches Ok(at) && at + size <= with_records(
            image.data,
            image,
            plan,
            plan.sites.len() as int,
        )->Ok_0.len(),
        is_untouched(image, reused_part(plan, from), address, size),
    ensures
        ({
            let written = with_records(image.data, image, plan, plan.sites.len() as int)->Ok_0;
            let at = image.file_offset(address, size)->Ok_0;
            image.bytes(address, size) == Ok::<Seq<u8>, MachOError>(
                written.subrange(at as int, at + size),
            )
        }),
{
    let reused = reused_part(plan, from);
    let n = plan.sites.len() as int;
    lemma_sides(image, found, plan, arena, from);
    lemma_records_split(image.data, image, plan, from, n);
    lemma_reused_gateways(plan, from);
    lemma_records_kept(image.data, image, reused, from);
    let written = with_records(image.data, image, plan, n)->Ok_0;
    let at = image.file_offset(address, size)->Ok_0 as int;
    assert forall|j: int| at <= j < at + size implies written[j] == image.data[j] by {
        if is_planned(image, reused, j, from) {
            let i = choose|i: int|
                0 <= i < from && {
                    let (target, placement) = #[trigger] reused.sites[i];
                    ||| image.file_offset(placement.record, RECORD_SIZE as int) matches Ok(x) && x
                        <= j < x + RECORD_SIZE
                    ||| image.file_offset(target, 4) matches Ok(x) && x <= j < x + 4
                };
            let site = reused.sites[i];
            assert(is_apart(image, site.1.record, RECORD_SIZE as int, address, size));
            assert(is_apart(image, site.0, 4, address, size));
        }
    }
    assert(written.subrange(at, at + size) =~= image.data.subrange(at, at + size));
}

proof fn lemma_reused_gateways(plan: PlanView, from: int)
    requires
        0 <= from <= plan.sites.len(),
        are_gateways(plan),
    ensures
        are_gateways(reused_part(plan, from)),
{
    let reused = reused_part(plan, from);
    assert forall|i: int| 0 <= i < reused.sites.len() implies (
    #[trigger] reused.sites[i]).1.instructions.len() == 7 by {
        assert(reused.sites[i] == plan.sites[i]);
    }
}

proof fn lemma_reused_keeps(
    image: ImageModel,
    found: ArenasView,
    plan: PlanView,
    arena: NewArena,
    from: int,
)
    requires
        scanned(image) == Ok::<ArenasView, PrepatchError>(found),
        is_split(found, plan, arena, from),
        is_clear(image, found, plan, arena),
    ensures
        keeps_arenas(image, found, reused_part(plan, from)),
{
    let reused = reused_part(plan, from);
    assert forall|i: int, k: int|
        0 <= i < reused.sites.len() && 0 <= k < found.arenas.len() implies ranges_apart(
        (#[trigger] reused.sites[i]).0 as int,
        4,
        (#[trigger] found.arenas[k]).code_vmaddr as int,
        arena_code_size(capacity_of(image, found.arenas[k])),
    ) by {
        assert(reused.sites[i] == plan.sites[i]);
    }
    assert(are_targets_outside(image, found.arenas, reused));
    lemma_keeps_arenas(image, found, reused);
}

/// An arena of the image is listed with as many records as before.
proof fn lemma_listed_arena(
    image: ImageModel,
    found: ArenasView,
    plan: PlanView,
    arena: NewArena,
    from: int,
    prepared: ImageModel,
    now: ArenasView,
    k: int,
) -> (m: int)
    requires
        is_grown(image, found, plan, arena, from, prepared, now),
        0 <= k < found.arenas.len(),
        0 < capacity_of(image, found.arenas[k]),
        image.file_offset(found.arenas[k].code_vmaddr, ARENA_HEADER_SIZE as int) is Ok,
    ensures
        0 <= m < now.arenas.len(),
        now.arenas[m].code_vmaddr == found.arenas[k].code_vmaddr,
        now.arenas[m].data_vmaddr == found.arenas[k].data_vmaddr,
        capacity_of(prepared, now.arenas[m]) == capacity_of(image, found.arenas[k]),
{
    let old_arena = found.arenas[k];
    let head = ARENA_HEADER_SIZE as int;
    assert(is_listed(now.arenas, old_arena));
    let m = choose|m: int|
        0 <= m < now.arenas.len() && (#[trigger] now.arenas[m]).code_vmaddr == old_arena.code_vmaddr
            && now.arenas[m].data_vmaddr == old_arena.data_vmaddr;
    lemma_reused_keeps(image, found, plan, arena, from);
    lemma_arena_kept(
        image,
        found,
        plan,
        arena,
        from,
        prepared,
        now,
        k,
        old_arena.code_vmaddr,
        head,
    );
    assert(is_untouched(image, reused_part(plan, from), found.arenas[k].code_vmaddr, head));
    lemma_written_kept(image, found, plan, arena, from, old_arena.code_vmaddr, head);
    m
}

/// The sites of an image are found again.
proof fn lemma_found_again(
    image: ImageModel,
    found: ArenasView,
    plan: PlanView,
    arena: NewArena,
    from: int,
    prepared: ImageModel,
    now: ArenasView,
    s: int,
)
    requires
        is_grown(image, found, plan, arena, from, prepared, now),
        0 <= s < found.sites.len(),
    ensures
        now.sites.contains(found.sites[s]),
{
    let site = found.sites[s];
    assert(found.sites.contains(site));
    law_scanned_sites_are_recorded(image, site);
    let (k, index) = choose|k: int, index: int|
        0 <= k < found.arenas.len() && 0 <= index < capacity_of(image, found.arenas[k])
            && #[trigger] is_recorded_at(image, found.arenas[k], index, site);
    let size = RECORD_SIZE as int;
    lemma_heads_read(image, found, k);
    let m = lemma_listed_arena(image, found, plan, arena, from, prepared, now, k);
    lemma_reused_keeps(image, found, plan, arena, from);
    lemma_arena_kept(
        image,
        found,
        plan,
        arena,
        from,
        prepared,
        now,
        k,
        site.1.record,
        size,
    );
    assert(is_untouched(image, reused_part(plan, from), found.sites[s].1.record, size));
    lemma_written_kept(image, found, plan, arena, from, site.1.record, size);
    assert(is_recorded_at(prepared, now.arenas[m], index, site));
    law_scanned_sites_are_recorded(prepared, site);
}

/// The sites in free records of the arenas are found.
proof fn lemma_reused_found(
    image: ImageModel,
    found: ArenasView,
    plan: PlanView,
    arena: NewArena,
    from: int,
    prepared: ImageModel,
    now: ArenasView,
    s: int,
)
    requires
        is_grown(image, found, plan, arena, from, prepared, now),
        0 <= s < from,
        is_sited(plan.sites[s]),
    ensures
        now.sites.contains(plan.sites[s]),
{
    let site = plan.sites[s];
    let reused = reused_part(plan, from);
    let n = plan.sites.len() as int;
    let size = RECORD_SIZE as int;
    let (k, index) = lemma_place_of(image, found, plan, arena, from, s);
    lemma_heads_read(image, found, k);
    let m = lemma_listed_arena(image, found, plan, arena, from, prepared, now, k);
    lemma_sides(image, found, plan, arena, from);
    lemma_records_split(image.data, image, plan, from, n);
    lemma_reused_gateways(plan, from);
    lemma_reused_keeps(image, found, plan, arena, from);
    lemma_records_held(image.data, image, reused, from, s);
    assert(reused.sites[s] == site);
    let written = with_records(image.data, image, plan, n)->Ok_0;
    assert(with_records(image.data, image, plan, n) is Ok);
    assert(holds_record(written, image, site));
    lemma_arena_kept(
        image,
        found,
        plan,
        arena,
        from,
        prepared,
        now,
        k,
        site.1.record,
        size,
    );
    assert(is_written(prepared, site));
    assert(is_recorded_at(prepared, now.arenas[m], index, site));
    law_scanned_sites_are_recorded(prepared, site);
}

/// A plan that adds an arena to those of an image is carried out once: with the image that it gives,
/// which has the new arena and still has the others, there is nothing left to add, and each
/// declaration is reported as existing.
///
/// An image whose segments overlap is left out, and so is one whose arenas do not lie between the
/// load commands and `__LINKEDIT`, a target inside an arena, and a branch that falls into the
/// inserted code.
pub(crate) proof fn lemma_growing_is_idempotent(
    image: ImageModel,
    found: ArenasView,
    resolved: Seq<ResolvedView>,
    declarations: Seq<DeclarationView>,
    plan: PlanView,
    arena: NewArena,
    prepared: ImageModel,
    now: ArenasView,
    again: Seq<DeclarationView>,
)
    requires
        in_report(resolved, declarations.len() as int),
        scanned(image) == Ok::<ArenasView, PrepatchError>(found),
        planned(image, resolved, declarations).outcome == Ok::<Option<PlanView>, PrepatchError>(
            Some(plan),
        ),
        plan.new_arena == Some(arena),
        is_clear(image, found, plan, arena),
        applied(image.data, image, plan) matches Ok(out) && preparable_image(out) == Ok::<
            ImageModel,
            PrepatchError,
        >(prepared),
        scanned(prepared) == Ok::<ArenasView, PrepatchError>(now),
        has_arena(prepared, now.arenas, arena, inserted_at(image.data, image, plan, arena)),
        has_arenas(prepared, now.arenas, image, found.arenas),
        in_report(resolved, again.len() as int),
        !any_failure(again),
    ensures
        ({
            let all = planned(prepared, resolved, again);
            &&& all.outcome == Ok::<Option<PlanView>, PrepatchError>(None)
            &&& forall|i: int|
                0 <= i < resolved.len() ==> all.declarations[(
                #[trigger] resolved[i]).report_index as int].patch_status == Some(
                    PatchStatus::Existing,
                )
        }),
{
    law_plan_is_complete(image, resolved, declarations);
    assert forall|i: int| 0 <= i < plan.sites.len() implies (
    #[trigger] plan.sites[i]).1.instructions.len() == 7 by {
        lemma_gateway_len(plan.sites[i]);
    }
    let from = lemma_split(image, found, resolved, declarations, plan, arena);
    lemma_sides(image, found, plan, arena, from);
    assert(is_grown(image, found, plan, arena, from, prepared, now));
    assert forall|i: int| 0 <= i < resolved.len() implies site_targets(now.sites).contains(
        (#[trigger] resolved[i]).target,
    ) by {
        let target = resolved[i].target;
        let (sites, s) = if site_targets(found.sites).contains(target) {
            let s = choose|s: int|
                0 <= s < found.sites.len() && site_targets(found.sites)[s] == target;
            lemma_found_again(image, found, plan, arena, from, prepared, now, s);
            (found.sites, s)
        } else {
            let s = choose|s: int|
                0 <= s < plan.sites.len() && site_targets(plan.sites)[s] == target;
            assert(is_sited(plan.sites[s]));
            if s < from {
                lemma_reused_found(image, found, plan, arena, from, prepared, now, s);
            } else {
                lemma_new_sites_are_found(
                    image.data,
                    image,
                    plan,
                    arena,
                    prepared,
                    now,
                    s,
                    s - from,
                );
            }
            (plan.sites, s)
        };
        let m = choose|m: int| 0 <= m < now.sites.len() && now.sites[m] == sites[s];
        assert(site_targets(now.sites)[m] == target);
    }
    law_planning_is_idempotent(prepared, now, resolved, again);
}

} // verus!
