//! What every plan keeps to.

use vstd::prelude::*;
use crate::bytes::{group_field_len, le32};
use crate::order::{lemma_sorted_form_exists, sorted_form};
use crate::util::arm64::b_code;
use crate::util::macho::image::ImageModel;
use crate::util::manifest::embedded::embedded_in;
use super::apply::{applied, in_new_arena, patched, with_arena, with_branches, with_records};
use super::arena::{
    are_sites, is_installed, law_scanned_sites_are_installed, scanned, site_targets, ArenaView,
    ArenasView,
};
use super::image::preparable_image;
use super::plan::{
    all_sited, are_missing, are_sites_of, arena_for, checked_targets, free_records, in_report,
    lemma_planned, lemma_remaining, placed_in_free, planned, targets_of, with_arenas, with_free,
    with_groups, with_sites, with_targets, Checked, Placing, PlanView,
};
use super::report::{any_failure, DeclarationView, PatchStatus};
use super::resolve::ResolvedView;
use super::site::{lemma_record_len, record_of, PlacementView, RECORD_SIZE};
use super::PrepatchError;

verus! {

/// A plan has a site for each declared target that has none yet, in ascending order. Each of these
/// targets begins with a `nop`, and each placement is the one that its record and its slot give.
pub proof fn law_plan_is_complete(
    image: ImageModel,
    resolved: Seq<ResolvedView>,
    declarations: Seq<DeclarationView>,
)
    requires
        in_report(resolved, declarations.len() as int),
    ensures
        planned(image, resolved, declarations).outcome matches Ok(Some(plan)) ==> {
            &&& scanned(image) matches Ok(found) && are_missing(
                image,
                found.sites,
                targets_of(resolved),
                site_targets(plan.sites),
            ) && forall|i: int|
                0 <= i < resolved.len() ==> site_targets(found.sites).contains(
                    (#[trigger] resolved[i]).target,
                ) || site_targets(plan.sites).contains(resolved[i].target)
            &&& all_sited(plan.sites)
        },
{
    if let Ok(Some(plan)) = planned(image, resolved, declarations).outcome {
        let found = scanned(image)->Ok_0;
        let targets = sorted_form::<u64>(targets_of(resolved));
        let c = checked_targets(image, found, resolved, declarations);
        let p = placed_in_free(found, resolved, c);
        lemma_planned(image, found, resolved, declarations);
        let count = c.missing.len() - p.next;
        if count != 0 {
            let arena = arena_for(image, found.next_generation, count)->Ok_0;
            lemma_remaining(p, resolved, c.missing, p.next, arena, count);
        }
        assert(are_sites_of(plan.sites, c.missing, c.missing.len() as int));
        assert(site_targets(plan.sites) =~= c.missing);
        assert forall|i: int| 0 <= i < resolved.len() implies site_targets(found.sites).contains(
            (#[trigger] resolved[i]).target,
        ) || c.missing.contains(resolved[i].target) by {
            assert(targets_of(resolved)[i] == resolved[i].target);
            assert(targets_of(resolved).contains(resolved[i].target));
            assert(targets.contains(resolved[i].target));
        }
    }
}

/// A new arena is inserted exactly where there are more targets to place than free records.
pub proof fn law_arena_is_added_when_full(
    image: ImageModel,
    resolved: Seq<ResolvedView>,
    declarations: Seq<DeclarationView>,
)
    requires
        in_report(resolved, declarations.len() as int),
    ensures
        planned(image, resolved, declarations).outcome matches Ok(Some(plan)) ==> (scanned(
            image,
        ) matches Ok(found) && (plan.new_arena is Some <==> plan.sites.len() > free_records(
            found.arenas,
            found.arenas.len() as int,
        ))),
{
    if let Ok(Some(plan)) = planned(image, resolved, declarations).outcome {
        let found = scanned(image)->Ok_0;
        let c = checked_targets(image, found, resolved, declarations);
        let p = placed_in_free(found, resolved, c);
        lemma_planned(image, found, resolved, declarations);
        let count = c.missing.len() - p.next;
        if count != 0 {
            let arena = arena_for(image, found.next_generation, count)->Ok_0;
            lemma_remaining(p, resolved, c.missing, p.next, arena, count);
        }
    }
}

proof fn lemma_groups_failure(
    declarations: Seq<DeclarationView>,
    resolved: Seq<ResolvedView>,
    n: int,
)
    requires
        0 <= n <= resolved.len(),
        in_report(resolved, declarations.len() as int),
    ensures
        with_groups(declarations, resolved, n).len() == declarations.len(),
        forall|k: int|
            0 <= k < declarations.len() ==> (#[trigger] with_groups(
                declarations,
                resolved,
                n,
            )[k]).failure == declarations[k].failure,
    decreases n,
{
    if n > 0 {
        lemma_groups_failure(declarations, resolved, n - 1);
        assert(resolved[n - 1].report_index < declarations.len());
    }
}

proof fn lemma_targets_sited(
    declarations: Seq<DeclarationView>,
    image: ImageModel,
    resolved: Seq<ResolvedView>,
    sites: Seq<(u64, PlacementView)>,
    targets: Seq<u64>,
    n: int,
)
    requires
        0 <= n <= targets.len(),
        forall|k: int|
            0 <= k < targets.len() ==> site_targets(sites).contains(#[trigger] targets[k]),
    ensures
        with_targets(declarations, image, resolved, sites, targets, n) == (Checked {
            declarations,
            missing: Seq::empty(),
        }),
    decreases n,
{
    if n > 0 {
        lemma_targets_sited(declarations, image, resolved, sites, targets, n - 1);
    }
}

proof fn lemma_free_unused(
    so_far: Placing,
    resolved: Seq<ResolvedView>,
    arena: ArenaView,
    n: int,
)
    requires
        so_far.next == 0,
    ensures
        with_free(so_far, resolved, Seq::empty(), arena, n) == so_far,
    decreases n,
{
    if n > 0 {
        lemma_free_unused(so_far, resolved, arena, n - 1);
    }
}

proof fn lemma_arenas_unused(
    so_far: Placing,
    resolved: Seq<ResolvedView>,
    arenas: Seq<ArenaView>,
    n: int,
)
    requires
        so_far.next == 0,
    ensures
        with_arenas(so_far, resolved, Seq::empty(), arenas, n) == so_far,
    decreases n,
{
    if n > 0 {
        lemma_arenas_unused(so_far, resolved, arenas, n - 1);
        lemma_free_unused(
            so_far,
            resolved,
            arenas[n - 1],
            arenas[n - 1].free_indices.len() as int,
        );
    }
}

proof fn lemma_sites_reported(
    declarations: Seq<DeclarationView>,
    image: ImageModel,
    sites: Seq<(u64, PlacementView)>,
    resolved: Seq<ResolvedView>,
    n: int,
)
    requires
        0 <= n <= resolved.len(),
        in_report(resolved, declarations.len() as int),
        are_sites(image, sites),
        forall|i: int|
            0 <= i < resolved.len() ==> site_targets(sites).contains(
                (#[trigger] resolved[i]).target,
            ),
    ensures
        ({
            let reported = with_sites(declarations, image, sites, Seq::empty(), resolved, n);
            &&& reported.fault is None
            &&& reported.declarations.len() == declarations.len()
            &&& forall|i: int|
                0 <= i < n ==> reported.declarations[(
                #[trigger] resolved[i]).report_index as int].patch_status == Some(
                    PatchStatus::Existing,
                )
        }),
    decreases n,
{
    if n > 0 {
        lemma_sites_reported(declarations, image, sites, resolved, n - 1);
        let none = Seq::<(u64, PlacementView)>::empty();
        let target = resolved[n - 1].target;
        assert(resolved[n - 1].report_index < declarations.len());
        assert(site_targets(sites).contains(target));
        let k = choose|k: int| 0 <= k < site_targets(sites).len() && site_targets(sites)[k] == target;
        assert(is_installed(image, sites[k]));
        site_targets(none).index_of_first_ensures(target);
        assert(!site_targets(none).contains(target));
        let before = with_sites(declarations, image, sites, none, resolved, n - 1);
        let reported = with_sites(declarations, image, sites, none, resolved, n);
        assert forall|i: int| 0 <= i < n implies reported.declarations[(
        #[trigger] resolved[i]).report_index as int].patch_status == Some(
            PatchStatus::Existing,
        ) by {
            assert(resolved[i].report_index < declarations.len());
            if i < n - 1 {
                assert(before.declarations[resolved[i].report_index as int].patch_status == Some(
                    PatchStatus::Existing,
                ));
            }
        }
    }
}

/// Where every declared target has its site already, there is nothing to add, and each declaration
/// is reported as existing.
pub proof fn law_planning_is_idempotent(
    image: ImageModel,
    found: ArenasView,
    resolved: Seq<ResolvedView>,
    declarations: Seq<DeclarationView>,
)
    requires
        in_report(resolved, declarations.len() as int),
        scanned(image) == Ok::<ArenasView, PrepatchError>(found),
        !any_failure(declarations),
        forall|i: int|
            0 <= i < resolved.len() ==> site_targets(found.sites).contains(
                (#[trigger] resolved[i]).target,
            ),
    ensures
        ({
            let all = planned(image, resolved, declarations);
            &&& all.outcome == Ok::<Option<PlanView>, PrepatchError>(None)
            &&& forall|i: int|
                0 <= i < resolved.len() ==> all.declarations[(
                #[trigger] resolved[i]).report_index as int].patch_status == Some(
                    PatchStatus::Existing,
                )
        }),
{
    let targets = sorted_form::<u64>(targets_of(resolved));
    let grouped = with_groups(declarations, resolved, resolved.len() as int);
    law_scanned_sites_are_installed(image);
    lemma_sorted_form_exists::<u64>(targets_of(resolved));
    assert forall|k: int| 0 <= k < targets.len() implies site_targets(found.sites).contains(
        #[trigger] targets[k],
    ) by {
        assert(targets.contains(targets[k]));
        assert(targets_of(resolved).contains(targets[k]));
        let i = choose|i: int|
            0 <= i < targets_of(resolved).len() && targets_of(resolved)[i] == targets[k];
        assert(resolved[i].target == targets[k]);
    }
    lemma_groups_failure(declarations, resolved, resolved.len() as int);
    lemma_targets_sited(
        grouped,
        image,
        resolved,
        found.sites,
        targets,
        targets.len() as int,
    );
    let none = Placing { declarations: grouped, placed: Seq::empty(), next: 0, fault: None };
    lemma_arenas_unused(none, resolved, found.arenas, found.arenas.len() as int);
    assert(!any_failure(grouped)) by {
        if any_failure(grouped) {
            let k = choose|k: int| 0 <= k < grouped.len() && (#[trigger] grouped[k]).failure is Some;
            assert(declarations[k].failure is Some);
        }
    }
    lemma_sites_reported(grouped, image, found.sites, resolved, resolved.len() as int);
}

/// A prepared image can be prepared again: it parses, it has a manifest, and every site in its arenas
/// is installed.
pub proof fn law_prepared_image_is_valid(original: Seq<u8>, image: ImageModel, plan: PlanView)
    ensures
        applied(original, image, plan) matches Ok(out) ==> {
            &&& embedded_in(out) is Ok
            &&& preparable_image(out) matches Ok(prepared) && scanned(prepared) matches Ok(found)
                && are_sites(prepared, found.sites)
        },
{
    if let Ok(out) = applied(original, image, plan) {
        law_scanned_sites_are_installed(preparable_image(out)->Ok_0);
    }
}

/// Whether a byte of the file belongs to the record or to the target of one of the first `n` sites.
pub open spec fn is_planned(image: ImageModel, plan: PlanView, j: int, n: int) -> bool {
    exists|i: int|
        0 <= i < n && {
            let (target, placement) = #[trigger] plan.sites[i];
            ||| image.file_offset(placement.record, RECORD_SIZE as int) matches Ok(offset) && offset
                <= j < offset + RECORD_SIZE
            ||| image.file_offset(target, 4) matches Ok(offset) && offset <= j < offset + 4
        }
}

/// Whether all placements of a plan are whole gateways.
pub open spec fn are_gateways(plan: PlanView) -> bool {
    forall|i: int| 0 <= i < plan.sites.len() ==> (#[trigger] plan.sites[i]).1.instructions.len() == 7
}

proof fn lemma_planned_more(image: ImageModel, plan: PlanView, j: int, n: int, m: int)
    requires
        n <= m,
        is_planned(image, plan, j, n),
    ensures
        is_planned(image, plan, j, m),
{
    let i = choose|i: int|
        0 <= i < n && {
            let (target, placement) = #[trigger] plan.sites[i];
            ||| image.file_offset(placement.record, RECORD_SIZE as int) matches Ok(offset) && offset
                <= j < offset + RECORD_SIZE
            ||| image.file_offset(target, 4) matches Ok(offset) && offset <= j < offset + 4
        };
    let site = plan.sites[i];
}

pub(crate) proof fn lemma_records_kept(original: Seq<u8>, image: ImageModel, plan: PlanView, n: int)
    requires
        0 <= n <= plan.sites.len(),
        are_gateways(plan),
    ensures
        with_records(original, image, plan, n) matches Ok(out) ==> out.len() == original.len()
            && forall|j: int|
            0 <= j < original.len() && !is_planned(image, plan, j, n) ==> #[trigger] out[j]
                == original[j],
    decreases n,
{
    if n > 0 {
        lemma_records_kept(original, image, plan, n - 1);
        if let Ok(out) = with_records(original, image, plan, n) {
            let before = with_records(original, image, plan, n - 1)->Ok_0;
            let (target, placement) = plan.sites[n - 1];
            assert forall|j: int|
                0 <= j < original.len() && !is_planned(image, plan, j, n) implies #[trigger] out[j]
                == original[j] by {
                if is_planned(image, plan, j, n - 1) {
                    lemma_planned_more(image, plan, j, n - 1, n);
                }
                if !in_new_arena(plan.new_arena, placement.record) {
                    lemma_record_len(target, placement);
                }
            }
        }
    }
}

pub(crate) proof fn lemma_branches_kept(before: Seq<u8>, image: ImageModel, plan: PlanView, n: int)
    requires
        0 <= n <= plan.sites.len(),
    ensures
        with_branches(before, image, plan, n) matches Ok(out) ==> out.len() == before.len()
            && forall|j: int|
            0 <= j < before.len() && !is_planned(image, plan, j, n) ==> #[trigger] out[j]
                == before[j],
    decreases n,
{
    broadcast use group_field_len;

    if n > 0 {
        lemma_branches_kept(before, image, plan, n - 1);
        if let Ok(out) = with_branches(before, image, plan, n) {
            let (target, placement) = plan.sites[n - 1];
            assert forall|j: int|
                0 <= j < before.len() && !is_planned(image, plan, j, n) implies #[trigger] out[j]
                == before[j] by {
                if is_planned(image, plan, j, n - 1) {
                    lemma_planned_more(image, plan, j, n - 1, n);
                }
            }
        }
    }
}

/// A plan that needs no new arena changes nothing in the file but the records of its sites and the
/// first four bytes of their targets.
pub proof fn law_reused_records_change_nothing_else(
    original: Seq<u8>,
    image: ImageModel,
    plan: PlanView,
)
    requires
        plan.new_arena is None,
        are_gateways(plan),
    ensures
        patched(original, image, plan) matches Ok(out) ==> out.len() == original.len() && forall|
            j: int,
        |
            0 <= j < original.len() && !is_planned(image, plan, j, plan.sites.len() as int)
                ==> #[trigger] out[j] == original[j],
{
    let n = plan.sites.len() as int;
    lemma_records_kept(original, image, plan, n);
    if let Ok(written) = with_records(original, image, plan, n) {
        lemma_branches_kept(written, image, plan, n);
    }
}

/// Whether two ranges of addresses share no byte of the file.
pub open spec fn is_apart(image: ImageModel, one: u64, n: int, other: u64, m: int) -> bool {
    match (image.file_offset(one, n), image.file_offset(other, m)) {
        (Ok(x), Ok(y)) => x + n <= y || y + m <= x,
        _ => true,
    }
}

/// Whether no two targets of a plan share a byte of the file.
pub open spec fn are_targets_apart(image: ImageModel, plan: PlanView) -> bool {
    forall|i: int, j: int|
        0 <= i < j < plan.sites.len() ==> is_apart(
            image,
            (#[trigger] plan.sites[i]).0,
            4,
            (#[trigger] plan.sites[j]).0,
            4,
        )
}

/// Whether a file holds, where an address is mapped, a branch to another address.
pub open spec fn holds_branch(out: Seq<u8>, image: ImageModel, from: u64, to: u64) -> bool {
    image.file_offset(from, 4) matches Ok(offset) && b_code(from, to) matches Ok(code) && offset + 4
        <= out.len() && out.subrange(offset as int, offset + 4) == le32(code)
}

proof fn lemma_branches_held(before: Seq<u8>, image: ImageModel, plan: PlanView, n: int, i: int)
    requires
        0 <= i < n <= plan.sites.len(),
        are_targets_apart(image, plan),
    ensures
        with_branches(before, image, plan, n) matches Ok(out) ==> holds_branch(
            out,
            image,
            plan.sites[i].0,
            plan.sites[i].1.gateway,
        ),
    decreases n,
{
    broadcast use group_field_len;

    if let Ok(out) = with_branches(before, image, plan, n) {
        let earlier = with_branches(before, image, plan, n - 1)->Ok_0;
        let (last, placement) = plan.sites[n - 1];
        let (target, _) = plan.sites[i];
        let offset = image.file_offset(target, 4)->Ok_0;
        if i < n - 1 {
            lemma_branches_held(before, image, plan, n - 1, i);
            let other = image.file_offset(last, 4)->Ok_0;
            assert(offset + 4 <= other || other + 4 <= offset);
            assert(out.subrange(offset as int, offset + 4) =~= earlier.subrange(
                offset as int,
                offset + 4,
            ));
        } else {
            let code = b_code(last, placement.gateway)->Ok_0;
            assert(out.subrange(offset as int, offset + 4) =~= le32(code));
        }
    }
}

/// After a plan is carried out, each of its targets begins with a branch to its gateway.
pub proof fn law_targets_branch_to_their_gateways(
    original: Seq<u8>,
    image: ImageModel,
    plan: PlanView,
    i: int,
)
    requires
        0 <= i < plan.sites.len(),
        are_targets_apart(image, plan),
    ensures
        applied(original, image, plan) matches Ok(out) ==> holds_branch(
            out,
            image,
            plan.sites[i].0,
            plan.sites[i].1.gateway,
        ),
{
    let n = plan.sites.len() as int;
    if let Ok(written) = with_records(original, image, plan, n) {
        if let Ok(grown) = with_arena(written, plan) {
            lemma_branches_held(grown, image, plan, n, i);
        }
    }
}

/// Whether no record of a plan shares a byte of the file with another record or with a target.
pub open spec fn are_records_apart(image: ImageModel, plan: PlanView) -> bool {
    forall|i: int, j: int|
        0 <= i < plan.sites.len() && 0 <= j < plan.sites.len() ==> {
            let record = (#[trigger] plan.sites[i]).1.record;
            let (target, placement) = #[trigger] plan.sites[j];
            &&& i != j ==> is_apart(
                image,
                record,
                RECORD_SIZE as int,
                placement.record,
                RECORD_SIZE as int,
            )
            &&& is_apart(image, record, RECORD_SIZE as int, target, 4)
        }
}

/// Whether a file holds, where it is mapped, the record of a site.
pub open spec fn holds_record(
    out: Seq<u8>,
    image: ImageModel,
    site: (u64, PlacementView),
) -> bool {
    image.file_offset(site.1.record, RECORD_SIZE as int) matches Ok(offset) && record_of(
        site.0,
        site.1,
    ) matches Ok(record) && offset + RECORD_SIZE <= out.len() && out.subrange(
        offset as int,
        offset + RECORD_SIZE,
    ) == record
}

pub(crate) proof fn lemma_records_held(original: Seq<u8>, image: ImageModel, plan: PlanView, n: int, i: int)
    requires
        0 <= i < n <= plan.sites.len(),
        plan.new_arena is None,
        are_gateways(plan),
        are_records_apart(image, plan),
    ensures
        with_records(original, image, plan, n) matches Ok(out) ==> holds_record(
            out,
            image,
            plan.sites[i],
        ),
    decreases n,
{
    if let Ok(out) = with_records(original, image, plan, n) {
        let earlier = with_records(original, image, plan, n - 1)->Ok_0;
        let (target, placement) = plan.sites[n - 1];
        lemma_record_len(target, placement);
        let site = plan.sites[i];
        let offset = image.file_offset(site.1.record, RECORD_SIZE as int)->Ok_0;
        if i < n - 1 {
            lemma_records_held(original, image, plan, n - 1, i);
            assert(out.subrange(offset as int, offset + RECORD_SIZE) =~= earlier.subrange(
                offset as int,
                offset + RECORD_SIZE,
            ));
        } else {
            let record = record_of(target, placement)->Ok_0;
            assert(out.subrange(offset as int, offset + RECORD_SIZE) =~= record);
        }
    }
}

proof fn lemma_branches_keep_record(
    before: Seq<u8>,
    image: ImageModel,
    plan: PlanView,
    n: int,
    i: int,
)
    requires
        0 <= n <= plan.sites.len(),
        0 <= i < plan.sites.len(),
        are_records_apart(image, plan),
        holds_record(before, image, plan.sites[i]),
    ensures
        with_branches(before, image, plan, n) matches Ok(out) ==> holds_record(
            out,
            image,
            plan.sites[i],
        ),
    decreases n,
{
    broadcast use group_field_len;

    if n > 0 {
        lemma_branches_keep_record(before, image, plan, n - 1, i);
        if let Ok(out) = with_branches(before, image, plan, n) {
            let earlier = with_branches(before, image, plan, n - 1)->Ok_0;
            let (target, _) = plan.sites[n - 1];
            let site = plan.sites[i];
            let offset = image.file_offset(site.1.record, RECORD_SIZE as int)->Ok_0;
            assert(out.subrange(offset as int, offset + RECORD_SIZE) =~= earlier.subrange(
                offset as int,
                offset + RECORD_SIZE,
            ));
        }
    }
}

/// After a plan that needs no new arena is carried out, the record of each of its sites stands in
/// the file.
pub proof fn law_reused_records_are_written(
    original: Seq<u8>,
    image: ImageModel,
    plan: PlanView,
    i: int,
)
    requires
        0 <= i < plan.sites.len(),
        plan.new_arena is None,
        are_gateways(plan),
        are_records_apart(image, plan),
    ensures
        applied(original, image, plan) matches Ok(out) ==> holds_record(out, image, plan.sites[i]),
{
    let n = plan.sites.len() as int;
    if let Ok(written) = with_records(original, image, plan, n) {
        lemma_records_held(original, image, plan, n, i);
        lemma_branches_keep_record(written, image, plan, n, i);
    }
}

} // verus!
