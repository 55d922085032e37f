//! What a scan finds of what stands in the arenas.

use vstd::prelude::*;
use crate::bytes::u32_at;
use crate::order::sorted_form;
use crate::util::macho::format::MachOError;
use crate::util::macho::image::ImageModel;
use super::apply::{applied, patched};
use super::arena::{
    arenas_state, found_segments, generations, is_sited, record_state, records_state, scanned,
    segment_of, site_targets, ArenaView, ArenasView,
};
use super::image::preparable_image;
use super::laws::{
    are_gateways, are_records_apart, is_apart, is_planned, law_plan_is_complete,
    law_planning_is_idempotent, law_reused_records_are_written,
    law_reused_records_change_nothing_else,
};
use super::plan::{
    checked_targets, in_report, placed_in_free, planned, with_arenas, with_free, Placing, PlanView,
};
use super::report::{any_failure, DeclarationView, PatchStatus};
use super::resolve::ResolvedView;
use super::site::{
    law_record_reads_back, record_of, PlacementView, ARENA_HEADER_SIZE, RECORD_SIZE, SITE_MAGIC,
};
use super::{PrepatchError, PrepatchFault};

verus! {

/// How many records an arena has.
pub open spec fn capacity_of(image: ImageModel, arena: ArenaView) -> int {
    u32_at(image.bytes(arena.code_vmaddr, ARENA_HEADER_SIZE as int)->Ok_0, 4) as int
}

/// Whether a site has the record and the slot at a place of an arena.
pub open spec fn is_place(arena: ArenaView, index: int, site: (u64, PlacementView)) -> bool {
    &&& site.1.record == arena.code_vmaddr + ARENA_HEADER_SIZE + index * RECORD_SIZE
    &&& site.1.slot == arena.data_vmaddr + index * 8
}

/// Whether an image holds the record of a site.
pub open spec fn is_written(image: ImageModel, site: (u64, PlacementView)) -> bool {
    &&& is_sited(site)
    &&& record_of(site.0, site.1) matches Ok(record) && image.bytes(
        site.1.record,
        RECORD_SIZE as int,
    ) == Ok::<Seq<u8>, MachOError>(record)
}

/// Whether an image holds the record of a site at a place of an arena.
pub open spec fn is_recorded_at(
    image: ImageModel,
    arena: ArenaView,
    index: int,
    site: (u64, PlacementView),
) -> bool {
    is_place(arena, index, site) && is_written(image, site)
}

/// Whether an image holds the record of a site in one of the arenas.
pub open spec fn is_recorded(
    image: ImageModel,
    arenas: Seq<ArenaView>,
    site: (u64, PlacementView),
) -> bool {
    exists|k: int, index: int|
        0 <= k < arenas.len() && 0 <= index < capacity_of(image, arenas[k])
            && #[trigger] is_recorded_at(image, arenas[k], index, site)
}

pub(crate) proof fn lemma_record_state(
    image: ImageModel,
    generation: u32,
    arena: ArenaView,
    index: u32,
    site: (u64, PlacementView),
)
    ensures
        record_state(
            image,
            generation,
            arena.code_vmaddr,
            arena.data_vmaddr,
            index,
        ) matches Ok(state) ==> (state == Some(site) <==> is_recorded_at(
            image,
            arena,
            index as int,
            site,
        )),
{
    let (code, data) = (arena.code_vmaddr, arena.data_vmaddr);
    if let Ok(state) = record_state(image, generation, code, data, index) {
        if is_recorded_at(image, arena, index as int, site) {
            let record = record_of(site.0, site.1)->Ok_0;
            law_record_reads_back(site.0, site.1.record, site.1.slot);
            assert(record[0] == record.subrange(0, 4)[0]);
            assert(record[0] == SITE_MAGIC@[0]);
            assert(record[0] != 0);
        }
    }
}

proof fn lemma_records_recorded(
    image: ImageModel,
    generation: u32,
    arena: ArenaView,
    before: Seq<(u64, PlacementView)>,
    n: int,
    site: (u64, PlacementView),
)
    requires
        0 <= n <= u32::MAX,
    ensures
        records_state(
            image,
            generation,
            arena.code_vmaddr,
            arena.data_vmaddr,
            before,
            n,
        ) matches Ok((free, sites)) ==> {
            &&& sites.contains(site) <==> before.contains(site) || exists|index: int|
                0 <= index < n && #[trigger] is_recorded_at(image, arena, index, site)
            &&& forall|x: int| 0 <= x < free.len() ==> (#[trigger] free[x]) < n
        },
    decreases n,
{
    let (code, data) = (arena.code_vmaddr, arena.data_vmaddr);
    if n > 0 {
        lemma_records_recorded(image, generation, arena, before, n - 1, site);
        if let Ok((free, sites)) = records_state(image, generation, code, data, before, n) {
            let (fewer, earlier) = records_state(
                image,
                generation,
                code,
                data,
                before,
                n - 1,
            )->Ok_0;
            let state = record_state(image, generation, code, data, (n - 1) as u32)->Ok_0;
            lemma_record_state(image, generation, arena, (n - 1) as u32, site);
            if let Some(found) = state {
                assert(sites == earlier.push(found));
                assert(sites[earlier.len() as int] == found);
                assert forall|other: (u64, PlacementView)| #[trigger]
                    earlier.contains(other) implies sites.contains(other) by {
                    let i = choose|i: int| 0 <= i < earlier.len() && earlier[i] == other;
                    assert(sites[i] == other);
                }
                if sites.contains(site) {
                    let i = choose|i: int| 0 <= i < sites.len() && sites[i] == site;
                    if i < earlier.len() {
                        assert(earlier[i] == site);
                    }
                }
            }
            let here = is_recorded_at(image, arena, n - 1, site);
        }
    }
}

proof fn lemma_arenas_recorded(
    image: ImageModel,
    order: Seq<u32>,
    code: Seq<(u32, usize)>,
    data: Seq<(u32, usize)>,
    n: int,
    site: (u64, PlacementView),
)
    requires
        0 <= n,
    ensures
        arenas_state(image, order, code, data, n) matches Ok((arenas, sites)) ==> {
            &&& arenas.len() == n
            &&& forall|k: int|
                0 <= k < n ==> (#[trigger] arenas[k]).code_vmaddr == segment_of(
                    image.segments,
                    code,
                    order[k],
                ).vmaddr && arenas[k].data_vmaddr == segment_of(
                    image.segments,
                    data,
                    order[k],
                ).vmaddr
            &&& forall|k: int, x: int|
                0 <= k < n && 0 <= x < arenas[k].free_indices.len() ==> (
                #[trigger] arenas[k].free_indices[x]) < capacity_of(image, arenas[k])
            &&& sites.contains(site) <==> is_recorded(image, arenas, site)
        },
    decreases n,
{
    if n > 0 {
        lemma_arenas_recorded(image, order, code, data, n - 1, site);
        if let Ok((arenas, sites)) = arenas_state(image, order, code, data, n) {
            let (fewer, earlier) = arenas_state(image, order, code, data, n - 1)->Ok_0;
            let arena = arenas.last();
            assert(arenas == fewer.push(arena));
            let header = image.bytes(arena.code_vmaddr, ARENA_HEADER_SIZE as int)->Ok_0;
            lemma_records_recorded(
                image,
                order[n - 1],
                arena,
                earlier,
                u32_at(header, 4) as int,
                site,
            );
            if sites.contains(site) {
                if earlier.contains(site) {
                    let (k, index) = choose|k: int, index: int|
                        0 <= k < fewer.len() && 0 <= index < capacity_of(image, fewer[k])
                            && #[trigger] is_recorded_at(image, fewer[k], index, site);
                    assert(is_recorded_at(image, arenas[k], index, site));
                } else {
                    let index = choose|index: int|
                        0 <= index < capacity_of(image, arena) && #[trigger] is_recorded_at(
                            image,
                            arena,
                            index,
                            site,
                        );
                    assert(is_recorded_at(image, arenas[n - 1], index, site));
                }
            }
            if is_recorded(image, arenas, site) {
                let (k, index) = choose|k: int, index: int|
                    0 <= k < arenas.len() && 0 <= index < capacity_of(image, arenas[k])
                        && #[trigger] is_recorded_at(image, arenas[k], index, site);
                if k < n - 1 {
                    assert(is_recorded_at(image, fewer[k], index, site));
                }
            }
        }
    }
}

/// The sites that a scan finds are exactly those whose records stand in the arenas.
pub proof fn law_scanned_sites_are_recorded(image: ImageModel, site: (u64, PlacementView))
    ensures
        scanned(image) matches Ok(found) ==> (found.sites.contains(site) <==> is_recorded(
            image,
            found.arenas,
            site,
        )),
{
    if let Ok((code, data)) = found_segments(image.segments, image.segments.len() as int) {
        let order = sorted_form::<u32>(generations(code));
        lemma_arenas_recorded(image, order, code, data, order.len() as int, site);
    }
}

/// Whether carrying out a plan touches no byte of a range of addresses.
pub open spec fn is_untouched(image: ImageModel, plan: PlanView, address: u64, size: int) -> bool {
    forall|i: int|
        0 <= i < plan.sites.len() ==> is_apart(
            image,
            (#[trigger] plan.sites[i]).1.record,
            RECORD_SIZE as int,
            address,
            size,
        ) && is_apart(image, plan.sites[i].0, 4, address, size)
}

proof fn lemma_untouched(
    image: ImageModel,
    plan: PlanView,
    prepared: ImageModel,
    address: u64,
    size: int,
)
    requires
        0 <= size,
        plan.new_arena is None,
        are_gateways(plan),
        patched(image.data, image, plan) == Ok::<Seq<u8>, PrepatchError>(prepared.data),
        prepared.segments == image.segments,
        is_untouched(image, plan, address, size),
    ensures
        prepared.bytes(address, size) == image.bytes(address, size),
{
    law_reused_records_change_nothing_else(image.data, image, plan);
    let n = plan.sites.len() as int;
    if let Ok(offset) = image.file_offset(address, size) {
        if offset + size <= image.data.len() {
            assert forall|j: int| offset <= j < offset + size implies prepared.data[j]
                == image.data[j] by {
                if is_planned(image, plan, j, n) {
                    let i = choose|i: int|
                        0 <= i < n && {
                            let (target, placement) = #[trigger] plan.sites[i];
                            ||| image.file_offset(placement.record, RECORD_SIZE as int) matches Ok(
                                at,
                            ) && at <= j < at + RECORD_SIZE
                            ||| image.file_offset(target, 4) matches Ok(at) && at <= j < at + 4
                        };
                    let site = plan.sites[i];
                    assert(false);
                }
            }
            assert(prepared.data.subrange(offset as int, offset + size) =~= image.data.subrange(
                offset as int,
                offset + size,
            ));
        }
    }
}

/// Whether a site is placed in a free record of one of the arenas.
pub open spec fn is_placed(arenas: Seq<ArenaView>, site: (u64, PlacementView)) -> bool {
    &&& is_sited(site)
    &&& exists|k: int, x: int|
        0 <= k < arenas.len() && 0 <= x < arenas[k].free_indices.len() && is_place(
            arenas[k],
            #[trigger] arenas[k].free_indices[x] as int,
            site,
        )
}

spec fn all_placed(arenas: Seq<ArenaView>, sites: Seq<(u64, PlacementView)>) -> bool {
    forall|i: int| 0 <= i < sites.len() ==> is_placed(arenas, #[trigger] sites[i])
}

proof fn lemma_free_placed(
    so_far: Placing,
    resolved: Seq<ResolvedView>,
    missing: Seq<u64>,
    arenas: Seq<ArenaView>,
    k: int,
    n: int,
)
    requires
        0 <= k < arenas.len(),
        0 <= n <= arenas[k].free_indices.len(),
        all_placed(arenas, so_far.placed),
    ensures
        all_placed(arenas, with_free(so_far, resolved, missing, arenas[k], n).placed),
    decreases n,
{
    if n > 0 {
        lemma_free_placed(so_far, resolved, missing, arenas, k, n - 1);
        let before = with_free(so_far, resolved, missing, arenas[k], n - 1);
        let after = with_free(so_far, resolved, missing, arenas[k], n);
        assert forall|i: int| 0 <= i < after.placed.len() implies is_placed(
            arenas,
            #[trigger] after.placed[i],
        ) by {
            if i < before.placed.len() {
                assert(after.placed[i] == before.placed[i]);
            } else {
                let index = arenas[k].free_indices[n - 1] as int;
                assert(is_place(arenas[k], index, after.placed[i]));
            }
        }
    }
}

proof fn lemma_arenas_placed(
    so_far: Placing,
    resolved: Seq<ResolvedView>,
    missing: Seq<u64>,
    arenas: Seq<ArenaView>,
    n: int,
)
    requires
        0 <= n <= arenas.len(),
        all_placed(arenas, so_far.placed),
    ensures
        all_placed(arenas, with_arenas(so_far, resolved, missing, arenas, n).placed),
    decreases n,
{
    if n > 0 {
        lemma_arenas_placed(so_far, resolved, missing, arenas, n - 1);
        lemma_free_placed(
            with_arenas(so_far, resolved, missing, arenas, n - 1),
            resolved,
            missing,
            arenas,
            n - 1,
            arenas[n - 1].free_indices.len() as int,
        );
    }
}

/// Whether a plan touches neither the heads nor the records in use of the arenas, and no two of its
/// own records and targets share a byte.
pub open spec fn keeps_arenas(image: ImageModel, found: ArenasView, plan: PlanView) -> bool {
    &&& are_records_apart(image, plan)
    &&& forall|k: int|
        0 <= k < found.arenas.len() ==> is_untouched(
            image,
            plan,
            (#[trigger] found.arenas[k]).code_vmaddr,
            ARENA_HEADER_SIZE as int,
        )
    &&& forall|k: int|
        0 <= k < found.sites.len() ==> is_untouched(
            image,
            plan,
            (#[trigger] found.sites[k]).1.record,
            RECORD_SIZE as int,
        )
}

proof fn lemma_same_arenas(
    image: ImageModel,
    found: ArenasView,
    plan: PlanView,
    prepared: ImageModel,
    now: ArenasView,
)
    requires
        scanned(image) == Ok::<ArenasView, PrepatchError>(found),
        scanned(prepared) == Ok::<ArenasView, PrepatchError>(now),
        plan.new_arena is None,
        are_gateways(plan),
        patched(image.data, image, plan) == Ok::<Seq<u8>, PrepatchError>(prepared.data),
        prepared.segments == image.segments,
        keeps_arenas(image, found, plan),
    ensures
        now.arenas.len() == found.arenas.len(),
        forall|k: int|
            0 <= k < found.arenas.len() ==> (#[trigger] now.arenas[k]).code_vmaddr
                == found.arenas[k].code_vmaddr && now.arenas[k].data_vmaddr
                == found.arenas[k].data_vmaddr && capacity_of(prepared, now.arenas[k])
                == capacity_of(image, found.arenas[k]),
        forall|k: int, x: int|
            0 <= k < found.arenas.len() && 0 <= x < found.arenas[k].free_indices.len() ==> (
            #[trigger] found.arenas[k].free_indices[x]) < capacity_of(image, found.arenas[k]),
{
    let (code, data) = found_segments(image.segments, image.segments.len() as int)->Ok_0;
    let order = sorted_form::<u32>(generations(code));
    let site = arbitrary();
    lemma_arenas_recorded(image, order, code, data, order.len() as int, site);
    lemma_arenas_recorded(prepared, order, code, data, order.len() as int, site);
    assert forall|k: int| 0 <= k < found.arenas.len() implies capacity_of(
        prepared,
        #[trigger] now.arenas[k],
    ) == capacity_of(image, found.arenas[k]) by {
        let address = found.arenas[k].code_vmaddr;
        lemma_untouched(image, plan, prepared, address, ARENA_HEADER_SIZE as int);
    }
}

pub(crate) proof fn lemma_gateway_len(site: (u64, PlacementView))
    requires
        is_sited(site),
    ensures
        site.1.instructions.len() == 7,
{
}

pub(crate) proof fn lemma_plan_sites(
    image: ImageModel,
    found: ArenasView,
    resolved: Seq<ResolvedView>,
    declarations: Seq<DeclarationView>,
    plan: PlanView,
)
    requires
        scanned(image) == Ok::<ArenasView, PrepatchError>(found),
        planned(image, resolved, declarations).outcome == Ok::<Option<PlanView>, PrepatchError>(
            Some(plan),
        ),
        plan.new_arena is None,
    ensures
        plan.sites == placed_in_free(
            found,
            resolved,
            checked_targets(image, found, resolved, declarations),
        ).placed,
{
}

proof fn lemma_plan_placed(
    image: ImageModel,
    found: ArenasView,
    resolved: Seq<ResolvedView>,
    declarations: Seq<DeclarationView>,
    plan: PlanView,
)
    requires
        scanned(image) == Ok::<ArenasView, PrepatchError>(found),
        planned(image, resolved, declarations).outcome == Ok::<Option<PlanView>, PrepatchError>(
            Some(plan),
        ),
        plan.new_arena is None,
    ensures
        all_placed(found.arenas, plan.sites),
        are_gateways(plan),
{
    let c = checked_targets(image, found, resolved, declarations);
    let none = Placing {
        declarations: c.declarations,
        placed: Seq::empty(),
        next: 0,
        fault: None,
    };
    lemma_arenas_placed(none, resolved, c.missing, found.arenas, found.arenas.len() as int);
    lemma_plan_sites(image, found, resolved, declarations, plan);
    assert forall|i: int| 0 <= i < plan.sites.len() implies (
    #[trigger] plan.sites[i]).1.instructions.len() == 7 by {
        assert(is_placed(found.arenas, plan.sites[i]));
        lemma_gateway_len(plan.sites[i]);
    }
}

/// Whether an image is the one that a plan without a new arena makes of another.
spec fn is_prepared(
    image: ImageModel,
    found: ArenasView,
    plan: PlanView,
    prepared: ImageModel,
    now: ArenasView,
) -> bool {
    &&& scanned(image) == Ok::<ArenasView, PrepatchError>(found)
    &&& scanned(prepared) == Ok::<ArenasView, PrepatchError>(now)
    &&& plan.new_arena is None
    &&& are_gateways(plan)
    &&& applied(image.data, image, plan) == Ok::<Seq<u8>, PrepatchFault>(prepared.data)
    &&& prepared.segments == image.segments
    &&& keeps_arenas(image, found, plan)
}

proof fn lemma_found_again(
    image: ImageModel,
    found: ArenasView,
    plan: PlanView,
    prepared: ImageModel,
    now: ArenasView,
    s: int,
)
    requires
        is_prepared(image, found, plan, prepared, now),
        0 <= s < found.sites.len(),
    ensures
        now.sites.contains(found.sites[s]),
{
    let site = found.sites[s];
    assert(found.sites.contains(site));
    law_scanned_sites_are_recorded(image, site);
    let (k, index) = choose|k: int, index: int|
        0 <= k < found.arenas.len() && 0 <= index < capacity_of(image, found.arenas[k])
            && #[trigger] is_recorded_at(image, found.arenas[k], index, site);
    lemma_same_arenas(image, found, plan, prepared, now);
    lemma_untouched(image, plan, prepared, site.1.record, RECORD_SIZE as int);
    assert(now.arenas[k].code_vmaddr == found.arenas[k].code_vmaddr);
    assert(is_recorded_at(prepared, now.arenas[k], index, site));
    law_scanned_sites_are_recorded(prepared, site);
}

proof fn lemma_planned_found(
    image: ImageModel,
    found: ArenasView,
    plan: PlanView,
    prepared: ImageModel,
    now: ArenasView,
    s: int,
)
    requires
        is_prepared(image, found, plan, prepared, now),
        all_placed(found.arenas, plan.sites),
        0 <= s < plan.sites.len(),
    ensures
        now.sites.contains(plan.sites[s]),
{
    let site = plan.sites[s];
    assert(is_placed(found.arenas, site));
    let (k, x) = choose|k: int, x: int|
        0 <= k < found.arenas.len() && 0 <= x < found.arenas[k].free_indices.len() && is_place(
            found.arenas[k],
            #[trigger] found.arenas[k].free_indices[x] as int,
            site,
        );
    let index = found.arenas[k].free_indices[x] as int;
    lemma_same_arenas(image, found, plan, prepared, now);
    law_reused_records_are_written(image.data, image, plan, s);
    assert(is_written(prepared, site));
    assert(now.arenas[k].code_vmaddr == found.arenas[k].code_vmaddr);
    assert(is_recorded_at(prepared, now.arenas[k], index, site));
    law_scanned_sites_are_recorded(prepared, site);
}

pub(crate) proof fn lemma_preparing_is_idempotent(
    image: ImageModel,
    found: ArenasView,
    resolved: Seq<ResolvedView>,
    declarations: Seq<DeclarationView>,
    plan: PlanView,
    prepared: ImageModel,
    again: Seq<DeclarationView>,
)
    requires
        in_report(resolved, declarations.len() as int),
        scanned(image) == Ok::<ArenasView, PrepatchError>(found),
        planned(image, resolved, declarations).outcome == Ok::<Option<PlanView>, PrepatchError>(
            Some(plan),
        ),
        plan.new_arena is None,
        keeps_arenas(image, found, plan),
        applied(image.data, image, plan) matches Ok(out) && preparable_image(out) == Ok::<
            ImageModel,
            PrepatchError,
        >(prepared),
        prepared.segments == image.segments,
        in_report(resolved, again.len() as int),
        !any_failure(again),
    ensures
        ({
            let all = planned(prepared, resolved, again);
            &&& all.outcome == Ok::<Option<PlanView>, PrepatchError>(None)
            &&& forall|i: int|
                0 <= i < resolved.len() ==> all.declarations[(
                #[trigger] resolved[i]).report_index as int].patch_status == Some(
                    PatchStatus::Existing,
                )
        }),
{
    let now = scanned(prepared)->Ok_0;
    law_plan_is_complete(image, resolved, declarations);
    lemma_plan_placed(image, found, resolved, declarations, plan);
    assert(is_prepared(image, found, plan, prepared, now));
    assert forall|i: int| 0 <= i < resolved.len() implies site_targets(now.sites).contains(
        (#[trigger] resolved[i]).target,
    ) by {
        let target = resolved[i].target;
        let (sites, s) = if site_targets(found.sites).contains(target) {
            let s = choose|s: int|
                0 <= s < found.sites.len() && site_targets(found.sites)[s] == target;
            lemma_found_again(image, found, plan, prepared, now, s);
            (found.sites, s)
        } else {
            let s = choose|s: int|
                0 <= s < plan.sites.len() && site_targets(plan.sites)[s] == target;
            lemma_planned_found(image, found, plan, prepared, now, s);
            (plan.sites, s)
        };
        let m = choose|m: int| 0 <= m < now.sites.len() && now.sites[m] == sites[s];
        assert(site_targets(now.sites)[m] == target);
    }
    law_planning_is_idempotent(prepared, now, resolved, again);
}

} // verus!
