//! The plan by which an image gets its hook sites.

use vstd::prelude::*;
use vstd::utf8::*;
use crate::bytes::{align_int, copy_bytes, get_u32, le32, push_u32, same_bytes, u32_at};
use crate::order::{
    distinct_order, keys, keys_at, lemma_sorted_form_exists, same_keys, sorted_form, Ranked,
};
use crate::util::arm64::nop;
use crate::util::macho::format::MachOError;
use crate::util::macho::image::{linkedit_from, ImageModel, MachOImage};
use super::arena::{
    arena_views, find_site, is_sited, law_scanned_sites_are_installed, scan_arenas, scanned,
    site_targets, site_views, ArenaView, Arenas, ArenasView, ExistingArena, Site,
};
use super::report::{
    any_failure, declaration_views, encoded, has_failure, DeclarationReport, DeclarationView,
    Failure, FailureView, PatchStatus, TargetFault,
};
use super::resolve::{resolved_views, ResolvedDecl, ResolvedView};
use super::site::{
    align_up, arena_capacity, arena_code_size, capacity_for, make_placement, placement_of,
    Placement, PlacementView, ARENA_HEADER_SIZE, PAGE_SIZE, RECORD_SIZE,
};
use super::PrepatchError;

verus! {

/// The addresses of declarations.
pub open spec fn targets_of(resolved: Seq<ResolvedView>) -> Seq<u64> {
    Seq::new(resolved.len(), |i: int| resolved[i].target)
}

/// Whether each declaration has its place in the report.
pub open spec fn in_report(resolved: Seq<ResolvedView>, declarations: int) -> bool {
    forall|i: int| 0 <= i < resolved.len() ==> (#[trigger] resolved[i]).report_index < declarations
}

/// What the first `n` declarations call a target.
pub open spec fn aliases_of(resolved: Seq<ResolvedView>, target: u64, n: int) -> Seq<Seq<u8>>
    decreases n,
{
    if n <= 0 {
        Seq::empty()
    } else if resolved[n - 1].target == target {
        aliases_of(resolved, target, n - 1).push(encode_utf8(resolved[n - 1].alias))
    } else {
        aliases_of(resolved, target, n - 1)
    }
}

/// What a target is called: each alias once, in the order of their bytes.
pub open spec fn group_of(resolved: Seq<ResolvedView>, target: u64) -> Seq<Seq<u8>> {
    sorted_form::<String>(aliases_of(resolved, target, resolved.len() as int))
}

/// Collect what a target is called.
fn collect_group(resolved: &[ResolvedDecl], target: u64) -> (r: Vec<String>)
    ensures
        encoded(r@) == group_of(resolved_views(resolved@), target),
{
    let ghost views = resolved_views(resolved@);
    let mut all: Vec<String> = Vec::new();
    let mut i: usize = 0;
    assert(encoded(all@) =~= Seq::empty());
    while i < resolved.len()
        invariant
            i <= resolved@.len(),
            views == resolved_views(resolved@),
            encoded(all@) == aliases_of(views, target, i as int),
        decreases resolved@.len() - i,
    {
        let ghost before = encoded(all@);
        assert(views[i as int] == resolved@[i as int]@);
        if resolved[i].target == target {
            let alias: String = resolved[i].alias.clone();
            all.push(alias);
            assert(encoded(all@) =~= before.push(encode_utf8(alias@)));
        }
        i = i + 1;
    }
    let places: Vec<usize> = distinct_order(&all);
    let mut r: Vec<String> = Vec::new();
    i = 0;
    while i < places.len()
        invariant
            i <= places@.len(),
            r@.len() == i,
            forall|k: int| 0 <= k < places@.len() ==> (#[trigger] places@[k]) < all@.len(),
            forall|k: int| 0 <= k < i ==> (#[trigger] r@[k])@ == all@[places@[k] as int]@,
        decreases places@.len() - i,
    {
        r.push(all[places[i]].clone());
        i = i + 1;
    }
    assert(keys(all@) =~= encoded(all@));
    assert(encoded(r@) =~= keys_at(all@, places@));
    r
}

/// The report with the alias groups of the first `n` declarations.
pub open spec fn with_groups(
    declarations: Seq<DeclarationView>,
    resolved: Seq<ResolvedView>,
    n: int,
) -> Seq<DeclarationView>
    decreases n,
{
    if n <= 0 {
        declarations
    } else {
        let so_far = with_groups(declarations, resolved, n - 1);
        let at = resolved[n - 1].report_index as int;
        so_far.update(
            at,
            DeclarationView { alias_group: group_of(resolved, resolved[n - 1].target), ..so_far[at]
            },
        )
    }
}

fn report_groups(declarations: &mut Vec<DeclarationReport>, resolved: &[ResolvedDecl])
    requires
        in_report(resolved_views(resolved@), old(declarations)@.len() as int),
    ensures
        final(declarations)@.len() == old(declarations)@.len(),
        declaration_views(final(declarations)@) == with_groups(
            declaration_views(old(declarations)@),
            resolved_views(resolved@),
            resolved@.len() as int,
        ),
{
    let ghost before = declaration_views(declarations@);
    let ghost views = resolved_views(resolved@);
    let mut i: usize = 0;
    while i < resolved.len()
        invariant
            i <= resolved@.len(),
            views == resolved_views(resolved@),
            before == declaration_views(old(declarations)@),
            in_report(views, declarations@.len() as int),
            declarations@.len() == old(declarations)@.len(),
            declaration_views(declarations@) == with_groups(before, views, i as int),
        decreases resolved@.len() - i,
    {
        let ghost so_far = declaration_views(declarations@);
        assert(views[i as int] == resolved@[i as int]@);
        let group: Vec<String> = collect_group(resolved, resolved[i].target);
        let at: usize = resolved[i].report_index;
        let entry: &mut DeclarationReport = &mut declarations[at];
        entry.alias_group = group;
        assert(declaration_views(declarations@) =~= so_far.update(
            at as int,
            declarations@[at as int]@,
        ));
        i = i + 1;
    }
}

/// The report in which the first `n` declarations of a target fail.
pub open spec fn marked(
    declarations: Seq<DeclarationView>,
    resolved: Seq<ResolvedView>,
    target: u64,
    fault: TargetFault,
    n: int,
) -> Seq<DeclarationView>
    decreases n,
{
    if n <= 0 {
        declarations
    } else {
        let so_far = marked(declarations, resolved, target, fault, n - 1);
        let at = resolved[n - 1].report_index as int;
        if resolved[n - 1].target == target {
            so_far.update(
                at,
                DeclarationView { failure: Some(FailureView::Target(fault)), ..so_far[at] },
            )
        } else {
            so_far
        }
    }
}

/// The report in which all declarations of a target fail.
pub open spec fn failed(
    declarations: Seq<DeclarationView>,
    resolved: Seq<ResolvedView>,
    target: u64,
    fault: TargetFault,
) -> Seq<DeclarationView> {
    marked(declarations, resolved, target, fault, resolved.len() as int)
}

pub(crate) proof fn lemma_marked(
    declarations: Seq<DeclarationView>,
    resolved: Seq<ResolvedView>,
    target: u64,
    fault: TargetFault,
    n: int,
)
    requires
        0 <= n <= resolved.len(),
        in_report(resolved, declarations.len() as int),
    ensures
        marked(declarations, resolved, target, fault, n).len() == declarations.len(),
        forall|k: int|
            0 <= k < declarations.len() && (#[trigger] declarations[k]).failure is Some
                ==> marked(declarations, resolved, target, fault, n)[k].failure is Some,
        forall|i: int|
            0 <= i < n && (#[trigger] resolved[i]).target == target ==> marked(
                declarations,
                resolved,
                target,
                fault,
                n,
            )[resolved[i].report_index as int].failure is Some,
    decreases n,
{
    if n > 0 {
        lemma_marked(declarations, resolved, target, fault, n - 1);
        assert(resolved[n - 1].report_index < declarations.len());
    }
}

/// A target that has declarations fails the report.
proof fn lemma_failed(
    declarations: Seq<DeclarationView>,
    resolved: Seq<ResolvedView>,
    target: u64,
    fault: TargetFault,
)
    requires
        in_report(resolved, declarations.len() as int),
        targets_of(resolved).contains(target),
    ensures
        failed(declarations, resolved, target, fault).len() == declarations.len(),
        any_failure(failed(declarations, resolved, target, fault)),
{
    lemma_marked(declarations, resolved, target, fault, resolved.len() as int);
    let i = choose|i: int| 0 <= i < targets_of(resolved).len() && targets_of(resolved)[i] == target;
    let at = resolved[i].report_index as int;
    assert(failed(declarations, resolved, target, fault)[at].failure is Some);
}

/// Let all declarations of a target fail.
fn fail_target(
    declarations: &mut Vec<DeclarationReport>,
    resolved: &[ResolvedDecl],
    target: u64,
    fault: TargetFault,
)
    requires
        in_report(resolved_views(resolved@), old(declarations)@.len() as int),
    ensures
        final(declarations)@.len() == old(declarations)@.len(),
        declaration_views(final(declarations)@) == failed(
            declaration_views(old(declarations)@),
            resolved_views(resolved@),
            target,
            fault,
        ),
{
    let ghost before = declaration_views(declarations@);
    let ghost views = resolved_views(resolved@);
    let mut i: usize = 0;
    while i < resolved.len()
        invariant
            i <= resolved@.len(),
            views == resolved_views(resolved@),
            before == declaration_views(old(declarations)@),
            in_report(views, declarations@.len() as int),
            declarations@.len() == old(declarations)@.len(),
            declaration_views(declarations@) == marked(before, views, target, fault, i as int),
        decreases resolved@.len() - i,
    {
        let ghost so_far = declaration_views(declarations@);
        assert(views[i as int] == resolved@[i as int]@);
        if resolved[i].target == target {
            let at: usize = resolved[i].report_index;
            let entry: &mut DeclarationReport = &mut declarations[at];
            entry.failure = Some(Failure::Target(fault));
            assert(declaration_views(declarations@) =~= so_far.update(
                at as int,
                declarations@[at as int]@,
            ));
        }
        i = i + 1;
    }
}

/// The report, and the targets that have no site yet.
pub struct Checked {
    pub declarations: Seq<DeclarationView>,
    pub missing: Seq<u64>,
}

/// The check of one more target: it has a site, or begins with a `nop`, or else fails.
pub open spec fn with_target(
    so_far: Checked,
    image: ImageModel,
    resolved: Seq<ResolvedView>,
    sites: Seq<(u64, PlacementView)>,
    target: u64,
) -> Checked {
    if site_targets(sites).contains(target) {
        so_far
    } else {
        match image.bytes(target, 4) {
            Ok(bytes) => if bytes == le32(0xd503_201f) {
                Checked { declarations: so_far.declarations, missing: so_far.missing.push(target) }
            } else {
                Checked {
                    declarations: failed(
                        so_far.declarations,
                        resolved,
                        target,
                        TargetFault::Entry { target, word: u32_at(bytes, 0) },
                    ),
                    missing: so_far.missing,
                }
            },
            Err(e) => Checked {
                declarations: failed(
                    so_far.declarations,
                    resolved,
                    target,
                    TargetFault::Unmapped(e),
                ),
                missing: so_far.missing,
            },
        }
    }
}

/// The check of the first `n` targets.
pub open spec fn with_targets(
    declarations: Seq<DeclarationView>,
    image: ImageModel,
    resolved: Seq<ResolvedView>,
    sites: Seq<(u64, PlacementView)>,
    targets: Seq<u64>,
    n: int,
) -> Checked
    decreases n,
{
    if n <= 0 {
        Checked { declarations, missing: Seq::empty() }
    } else {
        with_target(
            with_targets(declarations, image, resolved, sites, targets, n - 1),
            image,
            resolved,
            sites,
            targets[n - 1],
        )
    }
}

/// Collect the addresses of declarations, each once and in order.
fn collect_targets(resolved: &[ResolvedDecl]) -> (r: Vec<u64>)
    ensures
        r@ == sorted_form::<u64>(targets_of(resolved_views(resolved@))),
{
    let ghost wanted = targets_of(resolved_views(resolved@));
    let mut all: Vec<u64> = Vec::new();
    let mut i: usize = 0;
    while i < resolved.len()
        invariant
            i <= resolved@.len(),
            wanted == targets_of(resolved_views(resolved@)),
            all@ == wanted.subrange(0, i as int),
        decreases resolved@.len() - i,
    {
        all.push(resolved[i].target);
        assert(all@ =~= wanted.subrange(0, i + 1));
        i = i + 1;
    }
    assert(all@ =~= wanted);
    let places: Vec<usize> = distinct_order(&all);
    let mut r: Vec<u64> = Vec::new();
    i = 0;
    while i < places.len()
        invariant
            i <= places@.len(),
            forall|k: int| 0 <= k < places@.len() ==> (#[trigger] places@[k]) < all@.len(),
            r@ == keys_at(all@, places@).subrange(0, i as int),
        decreases places@.len() - i,
    {
        r.push(all[places[i]]);
        assert(r@ =~= keys_at(all@, places@).subrange(0, i + 1));
        i = i + 1;
    }
    assert(keys(all@) =~= all@);
    assert(r@ =~= keys_at(all@, places@));
    r
}

/// Check the targets, and collect those that have no site yet.
fn check_targets(
    image: &MachOImage,
    resolved: &[ResolvedDecl],
    sites: &[Site],
    targets: &[u64],
    declarations: &mut Vec<DeclarationReport>,
) -> (r: Vec<u64>)
    requires
        in_report(resolved_views(resolved@), old(declarations)@.len() as int),
    ensures
        final(declarations)@.len() == old(declarations)@.len(),
        (Checked { declarations: declaration_views(final(declarations)@), missing: r@ })
            == with_targets(
            declaration_views(old(declarations)@),
            image@,
            resolved_views(resolved@),
            site_views(sites@),
            targets@,
            targets@.len() as int,
        ),
{
    let ghost before = declaration_views(declarations@);
    let ghost views = resolved_views(resolved@);
    let mut nop_bytes: Vec<u8> = Vec::new();
    push_u32(&mut nop_bytes, nop());
    assert(nop_bytes@ =~= le32(0xd503_201f));
    let mut missing: Vec<u64> = Vec::new();
    let mut i: usize = 0;
    while i < targets.len()
        invariant
            i <= targets@.len(),
            views == resolved_views(resolved@),
            before == declaration_views(old(declarations)@),
            nop_bytes@ == le32(0xd503_201f),
            in_report(views, declarations@.len() as int),
            declarations@.len() == old(declarations)@.len(),
            (Checked { declarations: declaration_views(declarations@), missing: missing@ })
                == with_targets(before, image@, views, site_views(sites@), targets@, i as int),
        decreases targets@.len() - i,
    {
        let target: u64 = targets[i];
        match find_site(sites, target) {
            Some(k) => {
                assert(site_targets(site_views(sites@))[k as int] == target);
            },
            None => match image.bytes_at(target, 4) {
                Ok(bytes) => {
                    if same_bytes(bytes, &nop_bytes) {
                        missing.push(target);
                    } else {
                        let word: u32 = get_u32(bytes, 0);
                        fail_target(
                            declarations,
                            resolved,
                            target,
                            TargetFault::Entry { target, word },
                        );
                    }
                },
                Err(e) => {
                    fail_target(declarations, resolved, target, TargetFault::Unmapped(e));
                },
            },
        }
        i = i + 1;
    }
    missing
}

/// Where the placing of targets stands: the report, the sites so far, the next target, and what has
/// stopped it.
pub struct Placing {
    pub declarations: Seq<DeclarationView>,
    pub placed: Seq<(u64, PlacementView)>,
    pub next: int,
    pub fault: Option<PrepatchError>,
}

/// The placing of a target in the record `index` of an arena.
pub open spec fn with_place(
    so_far: Placing,
    resolved: Seq<ResolvedView>,
    target: u64,
    code: u64,
    data: u64,
    index: int,
) -> Placing {
    let record = code + ARENA_HEADER_SIZE + index * RECORD_SIZE;
    let slot = data + index * 8;
    if so_far.fault is Some {
        so_far
    } else if record > u64::MAX {
        Placing { fault: Some(PrepatchError::RecordAddress), ..so_far }
    } else if slot > u64::MAX {
        Placing { fault: Some(PrepatchError::SlotAddress), ..so_far }
    } else {
        match placement_of(target, record as u64, slot as u64) {
            Ok(placement) => Placing {
                placed: so_far.placed.push((target, placement)),
                next: so_far.next + 1,
                ..so_far
            },
            Err(e) => Placing {
                declarations: failed(
                    so_far.declarations,
                    resolved,
                    target,
                    TargetFault::Gateway(e),
                ),
                ..so_far
            },
        }
    }
}

/// The placing in the first `n` free records of an arena, as long as there are targets.
pub open spec fn with_free(
    so_far: Placing,
    resolved: Seq<ResolvedView>,
    missing: Seq<u64>,
    arena: ArenaView,
    n: int,
) -> Placing
    decreases n,
{
    if n <= 0 {
        so_far
    } else {
        let p = with_free(so_far, resolved, missing, arena, n - 1);
        if p.next >= missing.len() {
            p
        } else {
            with_place(
                p,
                resolved,
                missing[p.next],
                arena.code_vmaddr,
                arena.data_vmaddr,
                arena.free_indices[n - 1] as int,
            )
        }
    }
}

/// The placing in the free records of the first `n` arenas.
pub open spec fn with_arenas(
    so_far: Placing,
    resolved: Seq<ResolvedView>,
    missing: Seq<u64>,
    arenas: Seq<ArenaView>,
    n: int,
) -> Placing
    decreases n,
{
    if n <= 0 {
        so_far
    } else {
        with_free(
            with_arenas(so_far, resolved, missing, arenas, n - 1),
            resolved,
            missing,
            arenas[n - 1],
            arenas[n - 1].free_indices.len() as int,
        )
    }
}

/// The placing of the first `n` targets behind the first `from` in the records of a new arena.
pub open spec fn with_remaining(
    so_far: Placing,
    resolved: Seq<ResolvedView>,
    missing: Seq<u64>,
    from: int,
    arena: NewArena,
    n: int,
) -> Placing
    decreases n,
{
    if n <= 0 {
        so_far
    } else {
        with_place(
            with_remaining(so_far, resolved, missing, from, arena, n - 1),
            resolved,
            missing[from + n - 1],
            arena.code_vmaddr,
            arena.data_vmaddr,
            n - 1,
        )
    }
}

/// An arena that is to be inserted.
#[derive(Clone, Copy, Debug, PartialEq, Eq, Structural)]
pub struct NewArena {
    pub generation: u32,
    pub code_vmaddr: u64,
    pub data_vmaddr: u64,
    pub capacity: u32,
}

/// The arena for `count` targets, where there are any. It goes where `__LINKEDIT` is, its slots on the
/// page behind its code.
pub open spec fn arena_for(image: ImageModel, generation: u32, count: int) -> Result<
    NewArena,
    PrepatchError,
> {
    if count > u32::MAX {
        Err(PrepatchError::SiteCount)
    } else {
        match (capacity_for(count as u32), linkedit_from(image.segments, 0)) {
            (Err(e), _) => Err(e),
            (_, Err(e)) => Err(PrepatchError::Image(e)),
            (Ok(capacity), Ok(code_vmaddr)) => {
                let data_vmaddr = code_vmaddr + align_int(
                    arena_code_size(capacity as int),
                    PAGE_SIZE as int,
                );
                if data_vmaddr > u64::MAX {
                    Err(PrepatchError::DataAddress)
                } else {
                    Ok(
                        NewArena {
                            generation,
                            code_vmaddr,
                            data_vmaddr: data_vmaddr as u64,
                            capacity,
                        },
                    )
                }
            },
        }
    }
}

/// Make the arena for `count` targets.
fn make_arena(image: &MachOImage, generation: u32, count: usize) -> (r: Result<
    NewArena,
    PrepatchError,
>)
    ensures
        r == arena_for(image@, generation, count as int),
{
    if count as u64 > u32::MAX as u64 {
        return Err(PrepatchError::SiteCount);
    }
    let capacity: u32 = arena_capacity(count as u32)?;
    let code_vmaddr: u64 = match image.linkedit_vmaddr() {
        Ok(address) => address,
        Err(e) => return Err(PrepatchError::Image(e)),
    };
    let code_size: u64 = ARENA_HEADER_SIZE + capacity as u64 * RECORD_SIZE;
    let aligned: u64 = align_up(code_size, PAGE_SIZE)?;
    match code_vmaddr.checked_add(aligned) {
        Some(data_vmaddr) => Ok(NewArena { generation, code_vmaddr, data_vmaddr, capacity }),
        None => Err(PrepatchError::DataAddress),
    }
}

/// The placing that a report and a list of sites hold.
pub open spec fn placing_view(
    declarations: Seq<DeclarationReport>,
    placed: Seq<Site>,
    next: int,
) -> Placing {
    Placing {
        declarations: declaration_views(declarations),
        placed: site_views(placed),
        next,
        fault: None,
    }
}

/// Place a target in the record `index` of an arena.
fn place_target(
    resolved: &[ResolvedDecl],
    target: u64,
    code: u64,
    data: u64,
    index: u32,
    declarations: &mut Vec<DeclarationReport>,
    placed: &mut Vec<Site>,
    next: &mut usize,
) -> (r: Result<(), PrepatchError>)
    requires
        in_report(resolved_views(resolved@), old(declarations)@.len() as int),
        *old(next) < usize::MAX,
    ensures
        final(declarations)@.len() == old(declarations)@.len(),
        *final(next) <= *old(next) + 1,
        ({
            let after = with_place(
                placing_view(old(declarations)@, old(placed)@, *old(next) as int),
                resolved_views(resolved@),
                target,
                code,
                data,
                index as int,
            );
            let reached = placing_view(final(declarations)@, final(placed)@, *final(next) as int);
            match r {
                Ok(_) => after == reached,
                Err(e) => after == (Placing { fault: Some(e), ..reached }),
            }
        }),
{
    let ghost before = site_views(placed@);
    let record: u64 = match code.checked_add(ARENA_HEADER_SIZE) {
        Some(start) => match start.checked_add(index as u64 * RECORD_SIZE) {
            Some(record) => record,
            None => return Err(PrepatchError::RecordAddress),
        },
        None => return Err(PrepatchError::RecordAddress),
    };
    let slot: u64 = match data.checked_add(index as u64 * 8) {
        Some(slot) => slot,
        None => return Err(PrepatchError::SlotAddress),
    };
    match make_placement(target, record, slot) {
        Ok(placement) => {
            placed.push(Site { target, placement });
            assert(site_views(placed@) =~= before.push((target, placement@)));
            *next = *next + 1;
        },
        Err(e) => {
            fail_target(declarations, resolved, target, TargetFault::Gateway(e));
        },
    }
    Ok(())
}

proof fn lemma_free_fault(
    so_far: Placing,
    resolved: Seq<ResolvedView>,
    missing: Seq<u64>,
    arena: ArenaView,
    n: int,
    m: int,
)
    requires
        0 <= n <= m,
        with_free(so_far, resolved, missing, arena, n).fault is Some,
    ensures
        with_free(so_far, resolved, missing, arena, m) == with_free(
            so_far,
            resolved,
            missing,
            arena,
            n,
        ),
    decreases m,
{
    if n < m {
        lemma_free_fault(so_far, resolved, missing, arena, n, m - 1);
    }
}

proof fn lemma_arenas_fault(
    so_far: Placing,
    resolved: Seq<ResolvedView>,
    missing: Seq<u64>,
    arenas: Seq<ArenaView>,
    n: int,
    m: int,
)
    requires
        0 <= n <= m,
        with_arenas(so_far, resolved, missing, arenas, n).fault is Some,
    ensures
        with_arenas(so_far, resolved, missing, arenas, m) == with_arenas(
            so_far,
            resolved,
            missing,
            arenas,
            n,
        ),
    decreases m,
{
    if n < m {
        lemma_arenas_fault(so_far, resolved, missing, arenas, n, m - 1);
        lemma_free_fault(
            with_arenas(so_far, resolved, missing, arenas, m - 1),
            resolved,
            missing,
            arenas[m - 1],
            0,
            arenas[m - 1].free_indices.len() as int,
        );
    }
}

/// Place targets in the free records of an arena.
fn place_in_arena(
    arena: &ExistingArena,
    resolved: &[ResolvedDecl],
    missing: &[u64],
    declarations: &mut Vec<DeclarationReport>,
    placed: &mut Vec<Site>,
    next: &mut usize,
) -> (r: Result<(), PrepatchError>)
    requires
        in_report(resolved_views(resolved@), old(declarations)@.len() as int),
    ensures
        final(declarations)@.len() == old(declarations)@.len(),
        ({
            let after = with_free(
                placing_view(old(declarations)@, old(placed)@, *old(next) as int),
                resolved_views(resolved@),
                missing@,
                arena@,
                arena.free_indices@.len() as int,
            );
            let reached = placing_view(final(declarations)@, final(placed)@, *final(next) as int);
            match r {
                Ok(_) => after == reached,
                Err(e) => after == (Placing { fault: Some(e), ..reached }),
            }
        }),
{
    let ghost before = placing_view(declarations@, placed@, *next as int);
    let ghost views = resolved_views(resolved@);
    let mut i: usize = 0;
    while i < arena.free_indices.len()
        invariant
            i <= arena.free_indices@.len(),
            views == resolved_views(resolved@),
            before == placing_view(old(declarations)@, old(placed)@, *old(next) as int),
            in_report(views, declarations@.len() as int),
            declarations@.len() == old(declarations)@.len(),
            placing_view(declarations@, placed@, *next as int) == with_free(
                before,
                views,
                missing@,
                arena@,
                i as int,
            ),
        decreases arena.free_indices@.len() - i,
    {
        if *next < missing.len() {
            match place_target(
                resolved,
                missing[*next],
                arena.code_vmaddr,
                arena.data_vmaddr,
                arena.free_indices[i],
                declarations,
                placed,
                next,
            ) {
                Ok(_) => {},
                Err(e) => {
                    proof {
                        lemma_free_fault(
                            before,
                            views,
                            missing@,
                            arena@,
                            i + 1,
                            arena.free_indices@.len() as int,
                        );
                    }
                    return Err(e);
                },
            }
        }
        i = i + 1;
    }
    Ok(())
}

/// Place targets in the free records of all arenas.
fn place_in_arenas(
    arenas: &[ExistingArena],
    resolved: &[ResolvedDecl],
    missing: &[u64],
    declarations: &mut Vec<DeclarationReport>,
    placed: &mut Vec<Site>,
    next: &mut usize,
) -> (r: Result<(), PrepatchError>)
    requires
        in_report(resolved_views(resolved@), old(declarations)@.len() as int),
    ensures
        final(declarations)@.len() == old(declarations)@.len(),
        ({
            let after = with_arenas(
                placing_view(old(declarations)@, old(placed)@, *old(next) as int),
                resolved_views(resolved@),
                missing@,
                arena_views(arenas@),
                arenas@.len() as int,
            );
            let reached = placing_view(final(declarations)@, final(placed)@, *final(next) as int);
            match r {
                Ok(_) => after == reached,
                Err(e) => after == (Placing { fault: Some(e), ..reached }),
            }
        }),
{
    let ghost before = placing_view(declarations@, placed@, *next as int);
    let ghost views = resolved_views(resolved@);
    let ghost all = arena_views(arenas@);
    let mut i: usize = 0;
    while i < arenas.len()
        invariant
            i <= arenas@.len(),
            views == resolved_views(resolved@),
            all == arena_views(arenas@),
            before == placing_view(old(declarations)@, old(placed)@, *old(next) as int),
            in_report(views, declarations@.len() as int),
            declarations@.len() == old(declarations)@.len(),
            placing_view(declarations@, placed@, *next as int) == with_arenas(
                before,
                views,
                missing@,
                all,
                i as int,
            ),
        decreases arenas@.len() - i,
    {
        assert(all[i as int] == arenas@[i as int]@);
        match place_in_arena(&arenas[i], resolved, missing, declarations, placed, next) {
            Ok(_) => {},
            Err(e) => {
                proof {
                    lemma_arenas_fault(
                        before,
                        views,
                        missing@,
                        all,
                        i + 1,
                        arenas@.len() as int,
                    );
                }
                return Err(e);
            },
        }
        i = i + 1;
    }
    Ok(())
}

proof fn lemma_remaining_fault(
    so_far: Placing,
    resolved: Seq<ResolvedView>,
    missing: Seq<u64>,
    from: int,
    arena: NewArena,
    n: int,
    m: int,
)
    requires
        0 <= n <= m,
        with_remaining(so_far, resolved, missing, from, arena, n).fault is Some,
    ensures
        with_remaining(so_far, resolved, missing, from, arena, m) == with_remaining(
            so_far,
            resolved,
            missing,
            from,
            arena,
            n,
        ),
    decreases m,
{
    if n < m {
        lemma_remaining_fault(so_far, resolved, missing, from, arena, n, m - 1);
    }
}

/// Place the targets behind the first `from` in the records of a new arena.
fn place_remaining(
    arena: &NewArena,
    resolved: &[ResolvedDecl],
    missing: &[u64],
    from: usize,
    declarations: &mut Vec<DeclarationReport>,
    placed: &mut Vec<Site>,
) -> (r: Result<(), PrepatchError>)
    requires
        in_report(resolved_views(resolved@), old(declarations)@.len() as int),
        from <= missing@.len(),
        missing@.len() - from <= u32::MAX,
    ensures
        final(declarations)@.len() == old(declarations)@.len(),
        ({
            let after = with_remaining(
                placing_view(old(declarations)@, old(placed)@, from as int),
                resolved_views(resolved@),
                missing@,
                from as int,
                *arena,
                missing@.len() - from,
            );
            match r {
                Ok(_) => after.fault is None && after.declarations == declaration_views(
                    final(declarations)@,
                ) && after.placed == site_views(final(placed)@),
                Err(e) => after.fault == Some(e) && after.declarations == declaration_views(
                    final(declarations)@,
                ),
            }
        }),
{
    let ghost before = placing_view(declarations@, placed@, from as int);
    let ghost views = resolved_views(resolved@);
    let mut next: usize = from;
    let mut i: usize = from;
    assert(missing.len() <= usize::MAX);
    while i < missing.len()
        invariant
            from <= i <= missing@.len(),
            next <= i,
            missing@.len() - from <= u32::MAX,
            missing@.len() <= usize::MAX,
            views == resolved_views(resolved@),
            before == placing_view(old(declarations)@, old(placed)@, from as int),
            in_report(views, declarations@.len() as int),
            declarations@.len() == old(declarations)@.len(),
            placing_view(declarations@, placed@, next as int) == with_remaining(
                before,
                views,
                missing@,
                from as int,
                *arena,
                i - from,
            ),
        decreases missing@.len() - i,
    {
        let index: u32 = (i - from) as u32;
        match place_target(
            resolved,
            missing[i],
            arena.code_vmaddr,
            arena.data_vmaddr,
            index,
            declarations,
            placed,
            &mut next,
        ) {
            Ok(_) => {},
            Err(e) => {
                proof {
                    lemma_remaining_fault(
                        before,
                        views,
                        missing@,
                        from as int,
                        *arena,
                        i - from + 1,
                        missing@.len() - from,
                    );
                }
                return Err(e);
            },
        }
        i = i + 1;
    }
    Ok(())
}

/// The placement of a target among sites.
pub open spec fn lookup_site(sites: Seq<(u64, PlacementView)>, target: u64) -> Option<
    PlacementView,
> {
    match site_targets(sites).index_of_first(target) {
        Some(i) => Some(sites[i].1),
        None => None,
    }
}

/// The site of a target, and whether it is new.
pub open spec fn site_for(
    sites: Seq<(u64, PlacementView)>,
    placed: Seq<(u64, PlacementView)>,
    target: u64,
) -> (PlacementView, PatchStatus) {
    match lookup_site(placed, target) {
        Some(placement) => (placement, PatchStatus::Added),
        None => (lookup_site(sites, target)->Some_0, PatchStatus::Existing),
    }
}

/// The report, and what has stopped it.
pub struct Reported {
    pub declarations: Seq<DeclarationView>,
    pub fault: Option<PrepatchError>,
}

/// The report with the site of one more declaration.
pub open spec fn with_site(
    so_far: Reported,
    image: ImageModel,
    sites: Seq<(u64, PlacementView)>,
    placed: Seq<(u64, PlacementView)>,
    declaration: ResolvedView,
) -> Reported {
    let target = declaration.target;
    let at = declaration.report_index as int;
    let (placement, status) = site_for(sites, placed, target);
    if so_far.fault is Some {
        so_far
    } else {
        match image.bytes(target, 4) {
            Err(e) => Reported { fault: Some(PrepatchError::Image(e)), ..so_far },
            Ok(bytes) => Reported {
                declarations: so_far.declarations.update(
                    at,
                    DeclarationView {
                        entry_bytes: Some(bytes),
                        patch_status: Some(status),
                        gateway_vmaddr: Some(placement.gateway),
                        orig_stub_vmaddr: Some(placement.stub),
                        slot_vmaddr: Some(placement.slot),
                        target_to_gateway_distance: Some((placement.gateway - target) as i64),
                        stub_to_original_distance: Some((target - placement.stub) as i64),
                        ..so_far.declarations[at]
                    },
                ),
                fault: None,
            },
        }
    }
}

/// The report with the sites of the first `n` declarations.
pub open spec fn with_sites(
    declarations: Seq<DeclarationView>,
    image: ImageModel,
    sites: Seq<(u64, PlacementView)>,
    placed: Seq<(u64, PlacementView)>,
    resolved: Seq<ResolvedView>,
    n: int,
) -> Reported
    decreases n,
{
    if n <= 0 {
        Reported { declarations, fault: None }
    } else {
        with_site(
            with_sites(declarations, image, sites, placed, resolved, n - 1),
            image,
            sites,
            placed,
            resolved[n - 1],
        )
    }
}

proof fn lemma_sites_fault(
    declarations: Seq<DeclarationView>,
    image: ImageModel,
    sites: Seq<(u64, PlacementView)>,
    placed: Seq<(u64, PlacementView)>,
    resolved: Seq<ResolvedView>,
    n: int,
    m: int,
)
    requires
        0 <= n <= m,
        with_sites(declarations, image, sites, placed, resolved, n).fault is Some,
    ensures
        with_sites(declarations, image, sites, placed, resolved, m) == with_sites(
            declarations,
            image,
            sites,
            placed,
            resolved,
            n,
        ),
    decreases m,
{
    if n < m {
        lemma_sites_fault(declarations, image, sites, placed, resolved, n, m - 1);
    }
}

/// Whether all placements are those that their records and slots give.
pub open spec fn all_sited(sites: Seq<(u64, PlacementView)>) -> bool {
    forall|k: int| 0 <= k < sites.len() ==> is_sited(#[trigger] sites[k])
}

/// Find the placement of a target that has one.
fn find_placement(sites: &[Site], placed: &[Site], target: u64) -> (r: (Placement, PatchStatus))
    requires
        site_targets(site_views(sites@)).contains(target) || site_targets(
            site_views(placed@),
        ).contains(target),
        all_sited(site_views(sites@)),
        all_sited(site_views(placed@)),
    ensures
        (r.0@, r.1) == site_for(site_views(sites@), site_views(placed@), target),
        is_sited((target, r.0@)),
{
    let ghost old_sites = site_views(sites@);
    let ghost new_sites = site_views(placed@);
    proof {
        site_targets(new_sites).index_of_first_ensures(target);
        site_targets(old_sites).index_of_first_ensures(target);
    }
    match find_site(placed, target) {
        Some(i) => {
            assert(site_targets(new_sites)[i as int] == target);
            assert forall|k: int| 0 <= k < i implies site_targets(new_sites)[k] != target by {
                assert(placed@[k].target != target);
            }
            assert(is_sited(new_sites[i as int]));
            (placed[i].placement, PatchStatus::Added)
        },
        None => match find_site(sites, target) {
            Some(i) => {
                assert(site_targets(old_sites)[i as int] == target);
                assert forall|k: int| 0 <= k < i implies site_targets(old_sites)[k] != target by {
                    assert(sites@[k].target != target);
                }
                assert(is_sited(old_sites[i as int]));
                (sites[i].placement, PatchStatus::Existing)
            },
            None => {
                assert(false);
                (placed[0].placement, PatchStatus::Added)
            },
        },
    }
}

/// Report the sites of all declarations.
fn report_sites(
    image: &MachOImage,
    sites: &[Site],
    placed: &[Site],
    resolved: &[ResolvedDecl],
    declarations: &mut Vec<DeclarationReport>,
) -> (r: Result<(), PrepatchError>)
    requires
        in_report(resolved_views(resolved@), old(declarations)@.len() as int),
        all_sited(site_views(sites@)),
        all_sited(site_views(placed@)),
        forall|i: int|
            0 <= i < resolved@.len() ==> site_targets(site_views(sites@)).contains(
                (#[trigger] resolved@[i]).target,
            ) || site_targets(site_views(placed@)).contains(resolved@[i].target),
    ensures
        final(declarations)@.len() == old(declarations)@.len(),
        ({
            let after = with_sites(
                declaration_views(old(declarations)@),
                image@,
                site_views(sites@),
                site_views(placed@),
                resolved_views(resolved@),
                resolved@.len() as int,
            );
            &&& declaration_views(final(declarations)@) == after.declarations
            &&& after.fault == match r {
                Ok(_) => None::<PrepatchError>,
                Err(e) => Some(e),
            }
        }),
{
    let ghost before = declaration_views(declarations@);
    let ghost views = resolved_views(resolved@);
    let ghost old_sites = site_views(sites@);
    let ghost new_sites = site_views(placed@);
    let mut i: usize = 0;
    while i < resolved.len()
        invariant
            i <= resolved@.len(),
            views == resolved_views(resolved@),
            before == declaration_views(old(declarations)@),
            old_sites == site_views(sites@),
            new_sites == site_views(placed@),
            in_report(views, declarations@.len() as int),
            declarations@.len() == old(declarations)@.len(),
            all_sited(old_sites),
            all_sited(new_sites),
            forall|k: int|
                0 <= k < resolved@.len() ==> site_targets(old_sites).contains(
                    (#[trigger] resolved@[k]).target,
                ) || site_targets(new_sites).contains(resolved@[k].target),
            (Reported { declarations: declaration_views(declarations@), fault: None })
                == with_sites(before, image@, old_sites, new_sites, views, i as int),
        decreases resolved@.len() - i,
    {
        let ghost so_far = declaration_views(declarations@);
        let target: u64 = resolved[i].target;
        assert(views[i as int] == resolved@[i as int]@);
        let (placement, status) = find_placement(sites, placed, target);
        match image.bytes_at(target, 4) {
            Err(e) => {
                proof {
                    lemma_sites_fault(
                        before,
                        image@,
                        old_sites,
                        new_sites,
                        views,
                        i + 1,
                        resolved@.len() as int,
                    );
                }
                return Err(PrepatchError::Image(e));
            },
            Ok(bytes) => {
                let at: usize = resolved[i].report_index;
                let entry: &mut DeclarationReport = &mut declarations[at];
                entry.entry_bytes = Some(copy_bytes(bytes));
                entry.patch_status = Some(status);
                entry.gateway_vmaddr = Some(placement.gateway);
                entry.orig_stub_vmaddr = Some(placement.stub);
                entry.slot_vmaddr = Some(placement.slot);
                entry.target_to_gateway_distance = Some(
                    (placement.gateway as i128 - target as i128) as i64,
                );
                entry.stub_to_original_distance = Some(
                    (target as i128 - placement.stub as i128) as i64,
                );
                assert(declaration_views(declarations@) =~= so_far.update(
                    at as int,
                    declarations@[at as int]@,
                ));
            },
        }
        i = i + 1;
    }
    Ok(())
}

/// A plan: the targets that get a site, each with its placement, and the arena that has to be
/// inserted for them.
#[derive(Debug)]
pub struct PrepatchPlan {
    pub targets: Vec<u64>,
    pub placements: Vec<Placement>,
    pub new_arena: Option<NewArena>,
}

/// A plan as a plain value.
pub struct PlanView {
    pub sites: Seq<(u64, PlacementView)>,
    pub new_arena: Option<NewArena>,
}

impl PrepatchPlan {
    /// Whether each target has its placement.
    pub open spec fn is_valid(&self) -> bool {
        self.targets@.len() == self.placements@.len()
    }
}

impl View for PrepatchPlan {
    type V = PlanView;

    open spec fn view(&self) -> PlanView {
        PlanView {
            sites: Seq::new(
                self.targets@.len(),
                |i: int| (self.targets@[i], self.placements@[i]@),
            ),
            new_arena: self.new_arena,
        }
    }
}

/// What planning comes to: the report, and the plan where there is anything to add.
pub struct Planned {
    pub declarations: Seq<DeclarationView>,
    pub outcome: Result<Option<PlanView>, PrepatchError>,
}

/// The report with its alias groups, and the targets that have no site yet.
pub open spec fn checked_targets(
    image: ImageModel,
    found: ArenasView,
    resolved: Seq<ResolvedView>,
    declarations: Seq<DeclarationView>,
) -> Checked {
    let targets = sorted_form::<u64>(targets_of(resolved));
    with_targets(
        with_groups(declarations, resolved, resolved.len() as int),
        image,
        resolved,
        found.sites,
        targets,
        targets.len() as int,
    )
}

/// The placing in the free records of the arenas that are there.
pub open spec fn placed_in_free(
    found: ArenasView,
    resolved: Seq<ResolvedView>,
    checked: Checked,
) -> Placing {
    with_arenas(
        Placing {
            declarations: checked.declarations,
            placed: Seq::empty(),
            next: 0,
            fault: None,
        },
        resolved,
        checked.missing,
        found.arenas,
        found.arenas.len() as int,
    )
}

/// What planning comes to once the targets are placed.
pub open spec fn finished(
    image: ImageModel,
    found: ArenasView,
    resolved: Seq<ResolvedView>,
    placing: Placing,
    new_arena: Option<NewArena>,
) -> Planned {
    if placing.fault is Some {
        Planned {
            declarations: placing.declarations,
            outcome: Err(placing.fault->Some_0),
        }
    } else if any_failure(placing.declarations) {
        Planned {
            declarations: placing.declarations,
            outcome: Err(PrepatchError::Unreachable),
        }
    } else {
        let reported = with_sites(
            placing.declarations,
            image,
            found.sites,
            placing.placed,
            resolved,
            resolved.len() as int,
        );
        Planned {
            declarations: reported.declarations,
            outcome: match reported.fault {
                Some(e) => Err(e),
                None => if placing.placed.len() == 0 {
                    Ok(None)
                } else {
                    Ok(Some(PlanView { sites: placing.placed, new_arena }))
                },
            },
        }
    }
}

/// What planning comes to for an image whose arenas were read.
pub open spec fn planned_in(
    image: ImageModel,
    found: ArenasView,
    resolved: Seq<ResolvedView>,
    declarations: Seq<DeclarationView>,
) -> Planned {
    let checked = checked_targets(image, found, resolved, declarations);
    let placing = placed_in_free(found, resolved, checked);
    let count = checked.missing.len() - placing.next;
    if any_failure(checked.declarations) {
        Planned {
            declarations: checked.declarations,
            outcome: Err(PrepatchError::NotPatchable),
        }
    } else if placing.fault is Some || count == 0 {
        finished(image, found, resolved, placing, None)
    } else {
        match arena_for(image, found.next_generation, count) {
            Err(e) => Planned { declarations: placing.declarations, outcome: Err(e) },
            Ok(arena) => finished(
                image,
                found,
                resolved,
                with_remaining(placing, resolved, checked.missing, placing.next, arena, count),
                Some(arena),
            ),
        }
    }
}

/// What planning comes to.
pub open spec fn planned(
    image: ImageModel,
    resolved: Seq<ResolvedView>,
    declarations: Seq<DeclarationView>,
) -> Planned {
    match scanned(image) {
        Err(e) => Planned { declarations, outcome: Err(e) },
        Ok(found) => planned_in(image, found, resolved, declarations),
    }
}

/// Whether targets without a site stand among the declared ones, in order, and begin with a `nop`.
pub open spec fn are_missing(
    image: ImageModel,
    sites: Seq<(u64, PlacementView)>,
    targets: Seq<u64>,
    missing: Seq<u64>,
) -> bool {
    &&& forall|i: int|
        0 <= i < missing.len() ==> targets.contains(#[trigger] missing[i]) && !site_targets(
            sites,
        ).contains(missing[i]) && image.bytes(missing[i], 4) == Ok::<Seq<u8>, MachOError>(
            le32(0xd503_201f),
        )
    &&& forall|i: int, k: int|
        0 <= i < k < missing.len() ==> (#[trigger] missing[i]) < (#[trigger] missing[k])
}

proof fn lemma_checked(
    declarations: Seq<DeclarationView>,
    image: ImageModel,
    resolved: Seq<ResolvedView>,
    sites: Seq<(u64, PlacementView)>,
    targets: Seq<u64>,
    n: int,
)
    requires
        0 <= n <= targets.len(),
        in_report(resolved, declarations.len() as int),
        forall|k: int|
            0 <= k < targets.len() ==> targets_of(resolved).contains(#[trigger] targets[k]),
        forall|i: int, k: int|
            0 <= i < k < targets.len() ==> (#[trigger] targets[i]) < (#[trigger] targets[k]),
    ensures
        ({
            let c = with_targets(declarations, image, resolved, sites, targets, n);
            &&& c.declarations.len() == declarations.len()
            &&& any_failure(c.declarations) || forall|k: int|
                0 <= k < n ==> site_targets(sites).contains(#[trigger] targets[k])
                    || c.missing.contains(targets[k])
            &&& are_missing(image, sites, targets.subrange(0, n), c.missing)
        }),
    decreases n,
{
    let c = with_targets(declarations, image, resolved, sites, targets, n);
    if n > 0 {
        lemma_checked(declarations, image, resolved, sites, targets, n - 1);
        let b = with_targets(declarations, image, resolved, sites, targets, n - 1);
        let target = targets[n - 1];
        let part = targets.subrange(0, n - 1);
        let whole = targets.subrange(0, n);
        assert forall|i: int| 0 <= i < b.missing.len() implies whole.contains(
            #[trigger] b.missing[i],
        ) && b.missing[i] < target by {
            assert(part.contains(b.missing[i]));
            let k = choose|k: int| 0 <= k < part.len() && part[k] == b.missing[i];
            assert(targets[k] < targets[n - 1]);
            assert(whole[k] == b.missing[i]);
        }
        assert(whole[n - 1] == target);
        if !site_targets(sites).contains(target) {
            match image.bytes(target, 4) {
                Ok(bytes) => {
                    if bytes == le32(0xd503_201f) {
                        assert(c.missing[b.missing.len() as int] == target);
                        assert forall|k: int| 0 <= k < n && b.missing.contains(
                            #[trigger] targets[k],
                        ) implies c.missing.contains(targets[k]) by {
                            let j = choose|j: int|
                                0 <= j < b.missing.len() && b.missing[j] == targets[k];
                            assert(c.missing[j] == targets[k]);
                        }
                    } else {
                        lemma_failed(
                            b.declarations,
                            resolved,
                            target,
                            TargetFault::Entry { target, word: u32_at(bytes, 0) },
                        );
                    }
                },
                Err(e) => {
                    lemma_failed(b.declarations, resolved, target, TargetFault::Unmapped(e));
                },
            }
        }
    }
}

/// Whether sites are for the first `m` targets, in their order.
pub open spec fn are_sites_of(placed: Seq<(u64, PlacementView)>, missing: Seq<u64>, m: int) -> bool {
    placed.len() == m && forall|k: int| 0 <= k < m ==> (#[trigger] placed[k]).0 == missing[k]
}

/// Whether the first `m` targets are placed, as far as nothing has failed.
pub open spec fn keeps(placing: Placing, missing: Seq<u64>, m: int) -> bool {
    &&& all_sited(placing.placed)
    &&& any_failure(placing.declarations) || placing.fault is Some || are_sites_of(
        placing.placed,
        missing,
        m,
    )
}

proof fn lemma_place(
    p: Placing,
    resolved: Seq<ResolvedView>,
    missing: Seq<u64>,
    m: int,
    code: u64,
    data: u64,
    index: int,
)
    requires
        0 <= m < missing.len(),
        0 <= index,
        in_report(resolved, p.declarations.len() as int),
        targets_of(resolved).contains(missing[m]),
        keeps(p, missing, m),
    ensures
        ({
            let q = with_place(p, resolved, missing[m], code, data, index);
            &&& q.declarations.len() == p.declarations.len()
            &&& keeps(q, missing, m + 1)
            &&& any_failure(p.declarations) ==> any_failure(q.declarations)
            &&& q.fault is Some || any_failure(q.declarations) || q.next == p.next + 1
            &&& q.next == p.next || q.next == p.next + 1
        }),
{
    let q = with_place(p, resolved, missing[m], code, data, index);
    let record = code + ARENA_HEADER_SIZE + index * RECORD_SIZE;
    let slot = data + index * 8;
    if p.fault is None && record <= u64::MAX && slot <= u64::MAX {
        match placement_of(missing[m], record as u64, slot as u64) {
            Ok(placement) => {
                assert(is_sited((missing[m], placement)));
                assert forall|k: int| 0 <= k < q.placed.len() implies is_sited(
                    #[trigger] q.placed[k],
                ) by {
                    if k < p.placed.len() {
                        assert(is_sited(p.placed[k]));
                    }
                }
            },
            Err(e) => {
                lemma_failed(p.declarations, resolved, missing[m], TargetFault::Gateway(e));
            },
        }
    }
}

/// How many records are free in the first `n` arenas.
pub open spec fn free_records(arenas: Seq<ArenaView>, n: int) -> int
    decreases n,
{
    if n <= 0 {
        0
    } else {
        free_records(arenas, n - 1) + arenas[n - 1].free_indices.len()
    }
}

/// Where placing in free records stands after `used` of them: every one holds a target, as long as
/// there are targets and nothing has failed.
pub open spec fn fills(p: Placing, missing: Seq<u64>, declarations: int, used: int) -> bool {
    &&& p.declarations.len() == declarations
    &&& 0 <= p.next <= missing.len()
    &&& p.next <= used
    &&& keeps(p, missing, p.next)
    &&& any_failure(p.declarations) || p.fault is Some || p.next == missing.len() || p.next == used
}

proof fn lemma_free(
    so_far: Placing,
    resolved: Seq<ResolvedView>,
    missing: Seq<u64>,
    arena: ArenaView,
    n: int,
    declarations: int,
    used: int,
)
    requires
        0 <= n <= arena.free_indices.len(),
        in_report(resolved, declarations),
        forall|k: int|
            0 <= k < missing.len() ==> targets_of(resolved).contains(#[trigger] missing[k]),
        fills(so_far, missing, declarations, used),
    ensures
        fills(with_free(so_far, resolved, missing, arena, n), missing, declarations, used + n),
    decreases n,
{
    if n > 0 {
        lemma_free(so_far, resolved, missing, arena, n - 1, declarations, used);
        let p = with_free(so_far, resolved, missing, arena, n - 1);
        if p.next < missing.len() {
            lemma_place(
                p,
                resolved,
                missing,
                p.next,
                arena.code_vmaddr,
                arena.data_vmaddr,
                arena.free_indices[n - 1] as int,
            );
        }
    }
}

proof fn lemma_arenas(
    so_far: Placing,
    resolved: Seq<ResolvedView>,
    missing: Seq<u64>,
    arenas: Seq<ArenaView>,
    n: int,
    declarations: int,
)
    requires
        0 <= n <= arenas.len(),
        in_report(resolved, declarations),
        forall|k: int|
            0 <= k < missing.len() ==> targets_of(resolved).contains(#[trigger] missing[k]),
        fills(so_far, missing, declarations, 0),
    ensures
        fills(
            with_arenas(so_far, resolved, missing, arenas, n),
            missing,
            declarations,
            free_records(arenas, n),
        ),
    decreases n,
{
    if n > 0 {
        lemma_arenas(so_far, resolved, missing, arenas, n - 1, declarations);
        lemma_free(
            with_arenas(so_far, resolved, missing, arenas, n - 1),
            resolved,
            missing,
            arenas[n - 1],
            arenas[n - 1].free_indices.len() as int,
            declarations,
            free_records(arenas, n - 1),
        );
    }
}

pub(crate) proof fn lemma_remaining(
    so_far: Placing,
    resolved: Seq<ResolvedView>,
    missing: Seq<u64>,
    from: int,
    arena: NewArena,
    n: int,
)
    requires
        0 <= from,
        0 <= n <= missing.len() - from,
        in_report(resolved, so_far.declarations.len() as int),
        forall|k: int|
            0 <= k < missing.len() ==> targets_of(resolved).contains(#[trigger] missing[k]),
        keeps(so_far, missing, from),
    ensures
        with_remaining(so_far, resolved, missing, from, arena, n).declarations.len()
            == so_far.declarations.len(),
        keeps(with_remaining(so_far, resolved, missing, from, arena, n), missing, from + n),
        any_failure(so_far.declarations) ==> any_failure(
            with_remaining(so_far, resolved, missing, from, arena, n).declarations,
        ),
    decreases n,
{
    if n > 0 {
        lemma_remaining(so_far, resolved, missing, from, arena, n - 1);
        lemma_place(
            with_remaining(so_far, resolved, missing, from, arena, n - 1),
            resolved,
            missing,
            from + n - 1,
            arena.code_vmaddr,
            arena.data_vmaddr,
            n - 1,
        );
    }
}

pub(crate) proof fn lemma_groups_len(
    declarations: Seq<DeclarationView>,
    resolved: Seq<ResolvedView>,
    n: int,
)
    requires
        0 <= n <= resolved.len(),
        in_report(resolved, declarations.len() as int),
    ensures
        with_groups(declarations, resolved, n).len() == declarations.len(),
    decreases n,
{
    if n > 0 {
        lemma_groups_len(declarations, resolved, n - 1);
        assert(resolved[n - 1].report_index < declarations.len());
    }
}

/// What holds of the checked targets and of the placing in free records.
pub(crate) proof fn lemma_planned(
    image: ImageModel,
    found: ArenasView,
    resolved: Seq<ResolvedView>,
    declarations: Seq<DeclarationView>,
)
    requires
        in_report(resolved, declarations.len() as int),
    ensures
        ({
            let targets = sorted_form::<u64>(targets_of(resolved));
            let c = checked_targets(image, found, resolved, declarations);
            let p = placed_in_free(found, resolved, c);
            &&& c.declarations.len() == declarations.len()
            &&& same_keys(targets, targets_of(resolved))
            &&& are_missing(image, found.sites, targets, c.missing)
            &&& any_failure(c.declarations) || forall|k: int|
                0 <= k < targets.len() ==> site_targets(found.sites).contains(
                    #[trigger] targets[k],
                ) || c.missing.contains(targets[k])
            &&& forall|k: int|
                0 <= k < c.missing.len() ==> targets_of(resolved).contains(#[trigger] c.missing[k])
            &&& fills(
                p,
                c.missing,
                declarations.len() as int,
                free_records(found.arenas, found.arenas.len() as int),
            )
        }),
{
    let targets = sorted_form::<u64>(targets_of(resolved));
    let c = checked_targets(image, found, resolved, declarations);
    let grouped = with_groups(declarations, resolved, resolved.len() as int);
    lemma_groups_len(declarations, resolved, resolved.len() as int);
    lemma_sorted_form_exists::<u64>(targets_of(resolved));
    assert forall|k: int| 0 <= k < targets.len() implies targets_of(resolved).contains(
        #[trigger] targets[k],
    ) by {
        assert(targets.contains(targets[k]));
    }
    assert forall|i: int, k: int| 0 <= i < k < targets.len() implies (#[trigger] targets[i]) < (
    #[trigger] targets[k]) by {
        assert(<u64 as Ranked>::precedes(targets[i], targets[k]));
    }
    lemma_checked(grouped, image, resolved, found.sites, targets, targets.len() as int);
    assert(targets.subrange(0, targets.len() as int) =~= targets);
    assert forall|k: int| 0 <= k < c.missing.len() implies targets_of(resolved).contains(
        #[trigger] c.missing[k],
    ) by {
        assert(targets.contains(c.missing[k]));
    }
    lemma_arenas(
        Placing {
            declarations: c.declarations,
            placed: Seq::empty(),
            next: 0,
            fault: None,
        },
        resolved,
        c.missing,
        found.arenas,
        found.arenas.len() as int,
        declarations.len() as int,
    );
}

/// The plan of sites that were placed for the given targets.
fn make_plan(targets: Vec<u64>, placed: &[Site], new_arena: Option<NewArena>) -> (r: PrepatchPlan)
    requires
        are_sites_of(site_views(placed@), targets@, targets@.len() as int),
    ensures
        r.is_valid(),
        r.targets@ == targets@,
        r@ == (PlanView { sites: site_views(placed@), new_arena }),
{
    let mut placements: Vec<Placement> = Vec::new();
    let mut i: usize = 0;
    while i < placed.len()
        invariant
            i <= placed@.len(),
            placements@.len() == i,
            forall|k: int| 0 <= k < i ==> (#[trigger] placements@[k]) == placed@[k].placement,
        decreases placed@.len() - i,
    {
        placements.push(placed[i].placement);
        i = i + 1;
    }
    let plan: PrepatchPlan = PrepatchPlan { targets, placements, new_arena };
    assert(site_views(placed@).len() == placed@.len());
    assert forall|k: int| 0 <= k < placed@.len() implies plan@.sites[k] == site_views(
        placed@,
    )[k] by {
        assert(site_views(placed@)[k].0 == targets@[k]);
    }
    assert(plan@.sites =~= site_views(placed@));
    plan
}

/// Report the sites of all declarations, and make the plan.
fn finish(
    image: &MachOImage,
    found: &Arenas,
    resolved: &[ResolvedDecl],
    missing: Vec<u64>,
    placed: &[Site],
    new_arena: Option<NewArena>,
    declarations: &mut Vec<DeclarationReport>,
) -> (r: Result<Option<PrepatchPlan>, PrepatchError>)
    requires
        in_report(resolved_views(resolved@), old(declarations)@.len() as int),
        all_sited(site_views(found.sites@)),
        all_sited(site_views(placed@)),
        any_failure(declaration_views(old(declarations)@)) || are_sites_of(
            site_views(placed@),
            missing@,
            missing@.len() as int,
        ),
        forall|i: int|
            0 <= i < resolved@.len() ==> site_targets(site_views(found.sites@)).contains(
                (#[trigger] resolved@[i]).target,
            ) || missing@.contains(resolved@[i].target),
    ensures
        ({
            let all = finished(
                image@,
                found@,
                resolved_views(resolved@),
                placing_view(old(declarations)@, placed@, 0),
                new_arena,
            );
            &&& declaration_views(final(declarations)@) == all.declarations
            &&& match r {
                Ok(Some(plan)) => plan.is_valid() && plan.targets@ == missing@ && all.outcome
                    == Ok::<Option<PlanView>, PrepatchError>(Some(plan@)),
                Ok(None) => all.outcome == Ok::<Option<PlanView>, PrepatchError>(None),
                Err(e) => all.outcome == Err::<Option<PlanView>, PrepatchError>(e),
            }
        }),
{
    if has_failure(declarations) {
        return Err(PrepatchError::Unreachable);
    }
    proof {
        let new_sites = site_views(placed@);
        assert forall|i: int| 0 <= i < resolved@.len() && missing@.contains(
            (#[trigger] resolved@[i]).target,
        ) implies site_targets(new_sites).contains(resolved@[i].target) by {
            let k = choose|k: int| 0 <= k < missing@.len() && missing@[k] == resolved@[i].target;
            assert(new_sites[k].0 == missing@[k]);
            assert(site_targets(new_sites)[k] == missing@[k]);
        }
    }
    report_sites(image, &found.sites, placed, resolved, declarations)?;
    if placed.len() == 0 {
        return Ok(None);
    }
    Ok(Some(make_plan(missing, placed, new_arena)))
}

/// Plan the hook sites of an image: every target has a site already, or gets one in a free record,
/// or in a new arena where no record is free. The report gets what is planned for each declaration.
pub fn plan_prepatch(
    image: &MachOImage,
    resolved: &[ResolvedDecl],
    declarations: &mut Vec<DeclarationReport>,
) -> (r: Result<Option<PrepatchPlan>, PrepatchError>)
    requires
        in_report(resolved_views(resolved@), old(declarations)@.len() as int),
    ensures
        ({
            let all = planned(
                image@,
                resolved_views(resolved@),
                declaration_views(old(declarations)@),
            );
            &&& declaration_views(final(declarations)@) == all.declarations
            &&& match r {
                Ok(Some(plan)) => plan.is_valid() && all.outcome == Ok::<
                    Option<PlanView>,
                    PrepatchError,
                >(Some(plan@)),
                Ok(None) => all.outcome == Ok::<Option<PlanView>, PrepatchError>(None),
                Err(e) => all.outcome == Err::<Option<PlanView>, PrepatchError>(e),
            }
        }),
{
    let found: Arenas = scan_arenas(image)?;
    let ghost views = resolved_views(resolved@);
    let ghost before = declaration_views(declarations@);
    proof {
        law_scanned_sites_are_installed(image@);
        lemma_planned(image@, found@, views, before);
    }
    report_groups(declarations, resolved);
    let targets: Vec<u64> = collect_targets(resolved);
    let missing: Vec<u64> = check_targets(image, resolved, &found.sites, &targets, declarations);
    let ghost checked = checked_targets(image@, found@, views, before);
    if has_failure(declarations) {
        return Err(PrepatchError::NotPatchable);
    }
    proof {
        assert forall|i: int| 0 <= i < resolved@.len() implies site_targets(
            site_views(found.sites@),
        ).contains((#[trigger] resolved@[i]).target) || missing@.contains(
            resolved@[i].target,
        ) by {
            assert(targets_of(views)[i] == resolved@[i].target);
            assert(targets_of(views).contains(resolved@[i].target));
            assert(targets@.contains(resolved@[i].target));
        }
    }
    let mut placed: Vec<Site> = Vec::new();
    let mut next: usize = 0;
    assert(site_views(placed@) =~= Seq::empty());
    place_in_arenas(&found.arenas, resolved, &missing, declarations, &mut placed, &mut next)?;
    let ghost placing = placed_in_free(found@, views, checked);
    if next == missing.len() {
        return finish(image, &found, resolved, missing, &placed, None, declarations);
    }
    let arena: NewArena = make_arena(image, found.next_generation, missing.len() - next)?;
    proof {
        lemma_remaining(
            placing,
            views,
            missing@,
            next as int,
            arena,
            missing@.len() - next,
        );
    }
    place_remaining(&arena, resolved, &missing, next, declarations, &mut placed)?;
    finish(image, &found, resolved, missing, &placed, Some(arena), declarations)
}

} // verus!
