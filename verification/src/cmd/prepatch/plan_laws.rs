//! What a plan reports, and what the arena is that it adds.

use vstd::prelude::*;
use crate::bytes::{group_field_len, le32, lemma_align_int, lemma_u32_at_le, u32_at};
use crate::order::{lemma_sorted_form_exists, sorted_form, Ranked};
use crate::util::macho::format::{MachOError, LINKEDIT_NAME};
use crate::util::macho::image::{linkedit_from, ImageModel};
use super::apply::{arena_segments, empty_arena};
use super::arena::{is_sited, law_scanned_sites_are_installed, scanned, site_targets, ArenasView};
use super::plan::{
    all_sited, are_sites_of, arena_for, checked_targets, failed, in_report, lemma_groups_len,
    lemma_marked, lemma_planned, lemma_remaining, NewArena, placed_in_free, planned, Placing,
    site_for, targets_of, with_groups, with_remaining, with_sites, with_targets,
};
use super::report::{any_failure, DeclarationView, PatchStatus, TargetFault};
use super::resolve::ResolvedView;
use super::site::{arena_code_size, law_arena_fills_its_pages, PlacementView, PAGE_SIZE};
use super::{site_count, targets_with, PrepatchError};

verus! {

/// The code of an arena can be read and run, its slots can be read and written, and neither can be more
/// than that. There is a slot of eight bytes for each record, and none holds anything yet.
pub proof fn law_arena_segments(arena: NewArena, code: Seq<u8>, i: int)
    requires
        0 <= i < 8 * arena.capacity,
    ensures
        ({
            let segments = arena_segments(arena, code);
            let (readable, writable, executable) = (1u32, 2u32, 4u32);
            &&& segments.len() == 2
            &&& segments[0].data == code
            &&& segments[0].max_prot == readable + executable
            &&& segments[0].init_prot == readable + executable
            &&& segments[1].data.len() == 8 * arena.capacity
            &&& segments[1].data[i] == 0
            &&& segments[1].max_prot == readable + writable
            &&& segments[1].init_prot == readable + writable
            &&& segments[0].sections.len() == 1
            &&& segments[0].sections[0].name == "__arena"@
            &&& segments[0].sections[0].offset == 0
            &&& segments[1].sections.len() == 1
            &&& segments[1].sections[0].name == "__slots"@
            &&& segments[1].sections[0].offset == 0
            &&& segments[1].sections[0].size == segments[1].data.len()
        }),
{
}

/// An arena begins with its magic, the number of its records and the size of each. All its records are
/// free.
pub proof fn law_empty_arena_has_its_header(capacity: u32, i: int)
    requires
        16 <= i < 16 + 44 * capacity,
    ensures
        empty_arena(capacity).len() == 16 + 44 * capacity,
        empty_arena(capacity).subrange(0, 4) == seq![0x50u8, 0x41, 0x30, 0x31],
        u32_at(empty_arena(capacity), 4) == capacity,
        u32_at(empty_arena(capacity), 8) == 44,
        empty_arena(capacity)[i] == 0,
{
    broadcast use group_field_len;

    let code = empty_arena(capacity);
    assert(code.subrange(0, 4) =~= seq![0x50u8, 0x41, 0x30, 0x31]);
    assert(code.subrange(4, 8) =~= le32(capacity));
    assert(code.subrange(8, 12) =~= le32(44));
    lemma_u32_at_le(code, 4, capacity);
    lemma_u32_at_le(code, 8, 44);
}

proof fn lemma_linkedit(image: ImageModel, from: int)
    requires
        0 <= from,
        linkedit_from(image.segments, from) is Ok,
    ensures
        exists|k: int|
            0 <= k < image.segments.len() && (#[trigger] image.segments[k]).name@ == LINKEDIT_NAME@
                && image.segments[k].vmaddr == linkedit_from(image.segments, from)->Ok_0,
    decreases image.segments.len() - from,
{
    if from < image.segments.len() {
        if image.segments[from].name@ != LINKEDIT_NAME@ {
            lemma_linkedit(image, from + 1);
        }
    }
}

/// A new arena takes the place of `__LINKEDIT`, has room for all that it is made for, and has its slots
/// on the first page behind its code.
pub proof fn law_arena_is_placed(image: ImageModel, generation: u32, count: int)
    requires
        0 <= count,
    ensures
        arena_for(image, generation, count) matches Ok(arena) ==> {
            let end = arena.code_vmaddr + 16 + 44 * arena.capacity;
            &&& arena.generation == generation
            &&& arena.capacity >= count
            &&& exists|k: int|
                0 <= k < image.segments.len() && (#[trigger] image.segments[k]).name@
                    == LINKEDIT_NAME@ && image.segments[k].vmaddr == arena.code_vmaddr
            &&& end <= arena.data_vmaddr < end + 0x4000
            &&& (arena.data_vmaddr - arena.code_vmaddr) % 0x4000 == 0
        },
{
    if let Ok(arena) = arena_for(image, generation, count) {
        law_arena_fills_its_pages(count as u32);
        lemma_linkedit(image, 0);
        lemma_align_int(arena_code_size(arena.capacity as int), PAGE_SIZE as int);
    }
}

proof fn lemma_target_fails(
    declarations: Seq<DeclarationView>,
    image: ImageModel,
    resolved: Seq<ResolvedView>,
    sites: Seq<(u64, PlacementView)>,
    targets: Seq<u64>,
    n: int,
    at: int,
    i: int,
)
    requires
        0 <= at < n <= targets.len(),
        0 <= i < resolved.len(),
        in_report(resolved, declarations.len() as int),
        resolved[i].target == targets[at],
        !site_targets(sites).contains(targets[at]),
        image.bytes(targets[at], 4) matches Ok(entry) ==> entry != le32(0xd503_201f),
    ensures
        ({
            let after = with_targets(declarations, image, resolved, sites, targets, n).declarations;
            after.len() == declarations.len() && after[resolved[i].report_index as int].failure is Some
        }),
    decreases n,
{
    lemma_targets_len(declarations, image, resolved, sites, targets, n - 1);
    let before = with_targets(declarations, image, resolved, sites, targets, n - 1).declarations;
    if at < n - 1 {
        lemma_target_fails(declarations, image, resolved, sites, targets, n - 1, at, i);
    }
    assert(resolved[i].report_index < declarations.len());
    assert forall|fault: TargetFault|
        0 <= resolved[i].report_index < declarations.len() && (at < n - 1 || at == n - 1) implies
        (#[trigger] failed(before, resolved, targets[n - 1], fault)).len() == declarations.len()
        && failed(before, resolved, targets[n - 1], fault)[resolved[i].report_index as int].failure is Some by {
        lemma_marked(before, resolved, targets[n - 1], fault, resolved.len() as int);
        assert(at < n - 1 ==> before[resolved[i].report_index as int].failure is Some);
    }
}

proof fn lemma_targets_len(
    declarations: Seq<DeclarationView>,
    image: ImageModel,
    resolved: Seq<ResolvedView>,
    sites: Seq<(u64, PlacementView)>,
    targets: Seq<u64>,
    n: int,
)
    requires
        n <= targets.len(),
        in_report(resolved, declarations.len() as int),
    ensures
        with_targets(declarations, image, resolved, sites, targets, n).declarations.len()
            == declarations.len(),
    decreases n,
{
    if n > 0 {
        lemma_targets_len(declarations, image, resolved, sites, targets, n - 1);
        let before = with_targets(declarations, image, resolved, sites, targets, n - 1).declarations;
        assert forall|fault: TargetFault|
            (#[trigger] failed(before, resolved, targets[n - 1], fault)).len() == declarations.len() by {
            lemma_marked(before, resolved, targets[n - 1], fault, resolved.len() as int);
        }
    }
}

/// A target without a site that does not begin with a `nop` cannot be patched: its declaration fails,
/// and so does the whole plan.
pub proof fn law_unpatchable_target_fails(
    image: ImageModel,
    found: ArenasView,
    resolved: Seq<ResolvedView>,
    declarations: Seq<DeclarationView>,
    i: int,
)
    requires
        scanned(image) == Ok::<ArenasView, PrepatchError>(found),
        in_report(resolved, declarations.len() as int),
        0 <= i < resolved.len(),
        !site_targets(found.sites).contains(resolved[i].target),
        image.bytes(resolved[i].target, 4) matches Ok(entry) ==> u32_at(entry, 0) != 0xd503_201f,
    ensures
        ({
            let all = planned(image, resolved, declarations);
            &&& all.outcome is Err
            &&& all.outcome->Err_0 == PrepatchError::NotPatchable
            &&& all.declarations[resolved[i].report_index as int].failure is Some
        }),
{
    broadcast use group_field_len;

    let target = resolved[i].target;
    let targets = sorted_form::<u64>(targets_of(resolved));
    lemma_sorted_form_exists::<u64>(targets_of(resolved));
    assert(targets_of(resolved)[i] == target);
    assert(targets.contains(target));
    let at = choose|at: int| 0 <= at < targets.len() && targets[at] == target;
    lemma_groups_len(declarations, resolved, resolved.len() as int);
    let nop = le32(0xd503_201f);
    assert(nop.subrange(0, 4) =~= nop);
    lemma_u32_at_le(nop, 0, 0xd503_201f);
    let grouped = with_groups(declarations, resolved, resolved.len() as int);
    lemma_target_fails(
        grouped,
        image,
        resolved,
        found.sites,
        targets,
        targets.len() as int,
        at,
        i,
    );
    let after = with_targets(
        grouped,
        image,
        resolved,
        found.sites,
        targets,
        targets.len() as int,
    ).declarations;
    assert(after[resolved[i].report_index as int].failure is Some);
    assert(any_failure(after));
}

proof fn lemma_reported(
    declarations: Seq<DeclarationView>,
    image: ImageModel,
    sites: Seq<(u64, PlacementView)>,
    placed: Seq<(u64, PlacementView)>,
    resolved: Seq<ResolvedView>,
    n: int,
)
    requires
        0 <= n <= resolved.len(),
        in_report(resolved, declarations.len() as int),
    ensures
        ({
            let after = with_sites(declarations, image, sites, placed, resolved, n).declarations;
            &&& after.len() == declarations.len()
            &&& forall|k: int|
                0 <= k < after.len() ==> (#[trigger] after[k]).failure == declarations[k].failure
        }),
    decreases n,
{
    if n > 0 {
        lemma_reported(declarations, image, sites, placed, resolved, n - 1);
        assert(resolved[n - 1].report_index < declarations.len());
    }
}

/// Where a plan comes to anything, no declaration of its report fails.
pub proof fn law_failed_declaration_stops_the_plan(
    image: ImageModel,
    resolved: Seq<ResolvedView>,
    declarations: Seq<DeclarationView>,
    k: int,
)
    requires
        in_report(resolved, declarations.len() as int),
        0 <= k < planned(image, resolved, declarations).declarations.len(),
        planned(image, resolved, declarations).declarations[k].failure is Some,
    ensures
        planned(image, resolved, declarations).outcome is Err,
{
    if planned(image, resolved, declarations).outcome is Ok {
        lemma_plan_fails(image, resolved, declarations);
        assert(any_failure(planned(image, resolved, declarations).declarations));
    }
}

proof fn lemma_targets(declarations: Seq<DeclarationView>, status: PatchStatus, n: int, target: u64)
    requires
        0 <= n <= declarations.len(),
    ensures
        targets_with(declarations, status, n).contains(target) <==> exists|i: int|
            0 <= i < n && (#[trigger] declarations[i]).patch_status == Some(status)
                && declarations[i].resolved_target_vmaddr == Some(target),
    decreases n,
{
    if n > 0 {
        lemma_targets(declarations, status, n - 1, target);
        let before = targets_with(declarations, status, n - 1);
        let last = declarations[n - 1];
        if last.patch_status == Some(status) && last.resolved_target_vmaddr is Some {
            let now = before.push(last.resolved_target_vmaddr->0);
            assert(now.last() == last.resolved_target_vmaddr->0);
            if before.contains(target) {
                let k = choose|k: int| 0 <= k < before.len() && before[k] == target;
                assert(now[k] == target);
            }
            if now.contains(target) && now.last() != target {
                let k = choose|k: int| 0 <= k < now.len() && now[k] == target;
                assert(before[k] == target);
            }
        }
    }
}

/// The sites that are counted are the addresses that the declarations with the status resolve to, each
/// once, however many declarations there are for it.
pub proof fn law_sites_are_counted_once(
    declarations: Seq<DeclarationView>,
    status: PatchStatus,
    addresses: Set<u64>,
)
    requires
        forall|target: u64| #[trigger]
            addresses.contains(target) <==> exists|i: int|
                0 <= i < declarations.len() && (#[trigger] declarations[i]).patch_status == Some(
                    status,
                ) && declarations[i].resolved_target_vmaddr == Some(target),
    ensures
        addresses.finite(),
        site_count(declarations, status) == addresses.len(),
{
    let n = declarations.len() as int;
    let all = targets_with(declarations, status, n);
    let sorted = sorted_form::<u64>(all);
    lemma_sorted_form_exists::<u64>(all);
    assert(sorted.no_duplicates()) by {
        assert forall|i: int, j: int| 0 <= i < sorted.len() && 0 <= j < sorted.len() && i != j implies sorted[i]
            != sorted[j] by {
            if i < j {
                assert(<u64 as Ranked>::precedes(sorted[i], sorted[j]));
            } else {
                assert(<u64 as Ranked>::precedes(sorted[j], sorted[i]));
            }
        }
    }
    sorted.unique_seq_to_set();
    assert(sorted.to_set() =~= addresses) by {
        assert forall|target: u64| sorted.to_set().contains(target) == addresses.contains(
            target,
        ) by {
            lemma_targets(declarations, status, n, target);
            assert(sorted.contains(target) <==> all.contains(target));
        }
    }
}

#[verifier::spinoff_prover]
proof fn lemma_plan_fails(
    image: ImageModel,
    resolved: Seq<ResolvedView>,
    declarations: Seq<DeclarationView>,
)
    requires
        in_report(resolved, declarations.len() as int),
        planned(image, resolved, declarations).outcome is Ok,
    ensures
        planned(image, resolved, declarations).declarations.len() == declarations.len(),
        !any_failure(planned(image, resolved, declarations).declarations),
{
    let found = scanned(image)->Ok_0;
    let c = checked_targets(image, found, resolved, declarations);
    let p = placed_in_free(found, resolved, c);
    lemma_planned(image, found, resolved, declarations);
    let count = c.missing.len() - p.next;
    let last = last_placing(image, found, resolved, declarations);
    if p.fault is None && count != 0 {
        let arena = arena_for(image, found.next_generation, count)->Ok_0;
        lemma_remaining(p, resolved, c.missing, p.next, arena, count);
    }
    assert(last.declarations.len() == declarations.len());
    assert(!any_failure(last.declarations));
    lemma_reported(
        last.declarations,
        image,
        found.sites,
        last.placed,
        resolved,
        resolved.len() as int,
    );
    let after = planned(image, resolved, declarations).declarations;
    assert(after == with_sites(
        last.declarations,
        image,
        found.sites,
        last.placed,
        resolved,
        resolved.len() as int,
    ).declarations);
    assert forall|k: int| 0 <= k < after.len() implies (#[trigger] after[k]).failure is None by {
        assert(last.declarations[k].failure is None);
    }
}

/// The placing of all targets, where there is an arena for those without a free record.
spec fn last_placing(
    image: ImageModel,
    found: ArenasView,
    resolved: Seq<ResolvedView>,
    declarations: Seq<DeclarationView>,
) -> Placing {
    let c = checked_targets(image, found, resolved, declarations);
    let p = placed_in_free(found, resolved, c);
    let count = c.missing.len() - p.next;
    if p.fault is Some || count == 0 {
        p
    } else {
        with_remaining(
            p,
            resolved,
            c.missing,
            p.next,
            arena_for(image, found.next_generation, count)->Ok_0,
            count,
        )
    }
}

/// What a report says of a site: where it is, and how far its branches go.
pub open spec fn reports_site(d: DeclarationView, target: u64, p: PlacementView) -> bool {
    &&& d.gateway_vmaddr == Some(p.gateway)
    &&& d.orig_stub_vmaddr == Some(p.stub)
    &&& d.slot_vmaddr == Some(p.slot)
    &&& d.target_to_gateway_distance matches Some(distance) && target + distance == p.gateway
    &&& d.stub_to_original_distance matches Some(distance) && p.stub + distance == target
}

proof fn lemma_reported_at(
    declarations: Seq<DeclarationView>,
    image: ImageModel,
    sites: Seq<(u64, PlacementView)>,
    placed: Seq<(u64, PlacementView)>,
    resolved: Seq<ResolvedView>,
    n: int,
    i: int,
)
    requires
        0 <= i < n <= resolved.len(),
        in_report(resolved, declarations.len() as int),
        with_sites(declarations, image, sites, placed, resolved, n).fault is None,
        forall|j: int|
            0 <= j < resolved.len() && j != i ==> (#[trigger] resolved[j]).report_index
                != resolved[i].report_index,
    ensures
        ({
            let after = with_sites(declarations, image, sites, placed, resolved, n).declarations;
            let d = after[resolved[i].report_index as int];
            let target = resolved[i].target;
            let (p, status) = site_for(sites, placed, target);
            &&& d.patch_status == Some(status)
            &&& d.gateway_vmaddr == Some(p.gateway)
            &&& d.orig_stub_vmaddr == Some(p.stub)
            &&& d.slot_vmaddr == Some(p.slot)
            &&& d.target_to_gateway_distance == Some((p.gateway - target) as i64)
            &&& d.stub_to_original_distance == Some((target - p.stub) as i64)
            &&& d.entry_bytes matches Some(bytes) && image.bytes(target, 4) == Ok::<
                Seq<u8>,
                MachOError,
            >(bytes)
        }),
    decreases n,
{
    lemma_reported(declarations, image, sites, placed, resolved, n - 1);
    assert(resolved[n - 1].report_index < declarations.len());
    assert(resolved[i].report_index < declarations.len());
    if i < n - 1 {
        lemma_reported_at(declarations, image, sites, placed, resolved, n - 1, i);
        assert(resolved[n - 1].report_index != resolved[i].report_index);
    }
}

/// The report of a plan names the site of each declaration: one of the plan, which is added, or one of
/// the image. It holds the first bytes of the target as they are in the image.
#[verifier::spinoff_prover]
pub proof fn law_report_names_the_sites(
    image: ImageModel,
    found: ArenasView,
    resolved: Seq<ResolvedView>,
    declarations: Seq<DeclarationView>,
    added: Seq<(u64, PlacementView)>,
    i: int,
)
    requires
        scanned(image) == Ok::<ArenasView, PrepatchError>(found),
        in_report(resolved, declarations.len() as int),
        0 <= i < resolved.len(),
        forall|j: int|
            0 <= j < resolved.len() && j != i ==> (#[trigger] resolved[j]).report_index
                != resolved[i].report_index,
        match planned(image, resolved, declarations).outcome {
            Err(_) => false,
            Ok(None) => added.len() == 0,
            Ok(Some(plan)) => added == plan.sites,
        },
    ensures
        ({
            let d = planned(image, resolved, declarations).declarations[resolved[i].report_index as int];
            let target = resolved[i].target;
            &&& d.patch_status is Some
            &&& exists|p: PlacementView| #[trigger]
                reports_site(d, target, p) && if d.patch_status == Some(PatchStatus::Added) {
                    added.contains((target, p))
                } else {
                    found.sites.contains((target, p))
                }
            &&& d.entry_bytes matches Some(bytes) && image.bytes(target, 4) == Ok::<
                Seq<u8>,
                MachOError,
            >(bytes)
        }),
{
    let c = checked_targets(image, found, resolved, declarations);
    let p = placed_in_free(found, resolved, c);
    let targets = sorted_form::<u64>(targets_of(resolved));
    let target = resolved[i].target;
    lemma_planned(image, found, resolved, declarations);
    law_scanned_sites_are_installed(image);
    let count = c.missing.len() - p.next;
    let last = last_placing(image, found, resolved, declarations);
    if p.fault is None && count != 0 {
        let arena = arena_for(image, found.next_generation, count)->Ok_0;
        lemma_remaining(p, resolved, c.missing, p.next, arena, count);
    }
    assert(last.declarations.len() == declarations.len());
    assert(are_sites_of(last.placed, c.missing, c.missing.len() as int));
    assert(all_sited(last.placed));
    assert(added =~= last.placed);
    assert(targets_of(resolved)[i] == target);
    assert(targets.contains(target));
    lemma_reported_at(
        last.declarations,
        image,
        found.sites,
        last.placed,
        resolved,
        resolved.len() as int,
        i,
    );
    let at_placed = site_targets(last.placed);
    let at_found = site_targets(found.sites);
    at_placed.index_of_first_ensures(target);
    at_found.index_of_first_ensures(target);
    if c.missing.contains(target) {
        let k = choose|k: int| 0 <= k < c.missing.len() && c.missing[k] == target;
        assert(last.placed[k].0 == target);
        assert(at_placed[k] == target);
    }
    let (site, status) = site_for(found.sites, last.placed, target);
    if at_placed.contains(target) {
        let k = at_placed.index_of_first(target)->0;
        assert(last.placed[k] == (target, site));
        assert(is_sited(last.placed[k]));
        assert(added.contains((target, site)));
    } else {
        let k = at_found.index_of_first(target)->0;
        assert(found.sites[k] == (target, site));
        assert(is_sited(found.sites[k]));
        assert(found.sites.contains((target, site)));
    }
    let d = planned(image, resolved, declarations).declarations[resolved[i].report_index as int];
    assert(reports_site(d, target, site));
}

} // verus!
