//! What a scan finds of a new arena.

use vstd::prelude::*;
use crate::bytes::{group_field_len, le32, lemma_u32_at_le};
use crate::util::macho::image::ImageModel;
use crate::util::macho::laws::law_inserted_data_is_placed;
use crate::util::macho::relayout::with_segments;
use super::apply::{
    applied, arena_segments, empty_arena, in_new_arena, with_arena, with_branches,
    with_new_records, with_records,
};
use super::arena::{is_sited, scanned, ArenaView, ArenasView};
use super::disjoint::ranges_apart;
use super::laws::are_gateways;
use super::plan::{with_remaining, NewArena, Placing, PlanView};
use super::rescan::{capacity_of, is_recorded_at, is_written, law_scanned_sites_are_recorded};
use super::resolve::ResolvedView;
use super::site::{arena_code_size, lemma_record_len, record_of, ARENA_HEADER_SIZE, RECORD_SIZE};
use super::{PrepatchError, PrepatchFault};

verus! {

/// Where the code of a new arena is inserted into the file.
pub open spec fn inserted_at(
    original: Seq<u8>,
    image: ImageModel,
    plan: PlanView,
    arena: NewArena,
) -> int {
    let n = plan.sites.len() as int;
    let written = with_records(original, image, plan, n)->Ok_0;
    let code = with_new_records(plan, arena, n)->Ok_0;
    with_segments(written, arena_segments(arena, code))->Ok_0.1[0].fileoff as int
}

/// Whether an image maps `size` bytes of the file from `offset` on at an address.
pub open spec fn is_mapped(image: ImageModel, address: u64, offset: int, size: int) -> bool {
    forall|a: u64, n: int|
        address <= a && 0 < n && a + n <= address + size ==> (#[trigger] image.file_offset(a, n)
            matches Ok(at) && at == offset + (a - address))
}

/// Whether an image has a new arena: the arena is listed, and its code is where it was inserted.
pub open spec fn has_arena(
    prepared: ImageModel,
    arenas: Seq<ArenaView>,
    arena: NewArena,
    offset: int,
) -> bool {
    &&& exists|k: int|
        0 <= k < arenas.len() && (#[trigger] arenas[k]).code_vmaddr == arena.code_vmaddr
            && arenas[k].data_vmaddr == arena.data_vmaddr
    &&& is_mapped(prepared, arena.code_vmaddr, offset, arena_code_size(arena.capacity as int))
}

/// Whether the sites of a new arena have records of it, no two of which overlap.
pub open spec fn are_new_records_apart(plan: PlanView, arena: NewArena) -> bool {
    &&& forall|i: int|
        0 <= i < plan.sites.len() && in_new_arena(
            Some(arena),
            (#[trigger] plan.sites[i]).1.record,
        ) ==> plan.sites[i].1.record >= arena.code_vmaddr + ARENA_HEADER_SIZE
    &&& forall|i: int, j: int|
        0 <= i < j < plan.sites.len() && in_new_arena(
            Some(arena),
            (#[trigger] plan.sites[i]).1.record,
        ) && in_new_arena(Some(arena), (#[trigger] plan.sites[j]).1.record) ==> ranges_apart(
            plan.sites[i].1.record as int,
            RECORD_SIZE as int,
            plan.sites[j].1.record as int,
            RECORD_SIZE as int,
        )
}

/// Whether no branch of a plan is written into a range of the file.
pub open spec fn are_branches_outside(
    image: ImageModel,
    plan: PlanView,
    offset: int,
    size: int,
) -> bool {
    forall|i: int|
        0 <= i < plan.sites.len() ==> (image.file_offset(
            (#[trigger] plan.sites[i]).0,
            4,
        ) matches Ok(at) ==> ranges_apart(at as int, 4, offset, size))
}

proof fn lemma_new_records(plan: PlanView, arena: NewArena, n: int, i: int)
    requires
        0 <= n <= plan.sites.len(),
        are_gateways(plan),
        are_new_records_apart(plan, arena),
    ensures
        with_new_records(plan, arena, n) matches Ok(code) ==> {
            &&& code.len() == arena_code_size(arena.capacity as int)
            &&& code.subrange(0, ARENA_HEADER_SIZE as int) == empty_arena(
                arena.capacity,
            ).subrange(0, ARENA_HEADER_SIZE as int)
            &&& 0 <= i < n && in_new_arena(Some(arena), plan.sites[i].1.record) ==> {
                let at = plan.sites[i].1.record - arena.code_vmaddr;
                &&& at + RECORD_SIZE <= code.len()
                &&& record_of(plan.sites[i].0, plan.sites[i].1) matches Ok(record)
                    && code.subrange(at, at + RECORD_SIZE) == record
            }
        },
    decreases n,
{
    broadcast use group_field_len;

    if n > 0 {
        lemma_new_records(plan, arena, n - 1, i);
        if let Ok(code) = with_new_records(plan, arena, n) {
            let earlier = with_new_records(plan, arena, n - 1)->Ok_0;
            let (target, placement) = plan.sites[n - 1];
            let at = plan.sites[i].1.record - arena.code_vmaddr;
            if in_new_arena(Some(arena), placement.record) {
                lemma_record_len(target, placement);
                assert(code.subrange(0, ARENA_HEADER_SIZE as int) =~= earlier.subrange(
                    0,
                    ARENA_HEADER_SIZE as int,
                ));
                if 0 <= i < n && in_new_arena(Some(arena), plan.sites[i].1.record) {
                    if i < n - 1 {
                        assert(ranges_apart(
                            plan.sites[i].1.record as int,
                            RECORD_SIZE as int,
                            plan.sites[n - 1].1.record as int,
                            RECORD_SIZE as int,
                        ));
                        assert(code.subrange(at, at + RECORD_SIZE) =~= earlier.subrange(
                            at,
                            at + RECORD_SIZE,
                        ));
                    } else {
                        let record = record_of(target, placement)->Ok_0;
                        assert(code.subrange(at, at + RECORD_SIZE) =~= record);
                    }
                }
            }
        }
    }
}

pub(crate) proof fn lemma_branches_outside(
    before: Seq<u8>,
    image: ImageModel,
    plan: PlanView,
    n: int,
    offset: int,
    size: int,
)
    requires
        0 <= n <= plan.sites.len(),
        0 <= offset,
        0 <= size,
        offset + size <= before.len(),
        are_branches_outside(image, plan, offset, size),
    ensures
        with_branches(before, image, plan, n) matches Ok(out) ==> out.len() == before.len()
            && out.subrange(offset, offset + size) == before.subrange(offset, offset + size),
    decreases n,
{
    broadcast use group_field_len;

    if n > 0 {
        lemma_branches_outside(before, image, plan, n - 1, offset, size);
        if let Ok(out) = with_branches(before, image, plan, n) {
            let earlier = with_branches(before, image, plan, n - 1)->Ok_0;
            let (target, _) = plan.sites[n - 1];
            assert(out.subrange(offset, offset + size) =~= earlier.subrange(offset, offset + size));
        }
    }
}

/// The code of a new arena stands in the file where it was inserted.
proof fn lemma_code_inserted(
    original: Seq<u8>,
    image: ImageModel,
    plan: PlanView,
    arena: NewArena,
    out: Seq<u8>,
)
    requires
        plan.new_arena == Some(arena),
        are_gateways(plan),
        are_new_records_apart(plan, arena),
        applied(original, image, plan) == Ok::<Seq<u8>, PrepatchFault>(out),
        are_branches_outside(
            image,
            plan,
            inserted_at(original, image, plan, arena),
            arena_code_size(arena.capacity as int),
        ),
    ensures
        ({
            let at = inserted_at(original, image, plan, arena);
            let size = arena_code_size(arena.capacity as int);
            &&& with_new_records(plan, arena, plan.sites.len() as int) matches Ok(code)
                && code.len() == size && at + size <= out.len() && out.subrange(at, at + size)
                == code
        }),
{
    let n = plan.sites.len() as int;
    let at = inserted_at(original, image, plan, arena);
    let size = arena_code_size(arena.capacity as int);
    let written = with_records(original, image, plan, n)->Ok_0;
    let code = with_new_records(plan, arena, n)->Ok_0;
    lemma_new_records(plan, arena, n, 0);
    let segments = arena_segments(arena, code);
    law_inserted_data_is_placed(written, segments, 0);
    let grown = with_arena(written, plan)->Ok_0;
    lemma_branches_outside(grown, image, plan, n, at, size);
}

/// The sites of a new arena are found in the image that a plan gives.
///
/// A plan whose branches fall into the inserted code is left out, and so is one whose records in the
/// new arena overlap.
#[verifier::spinoff_prover]
#[verifier::rlimit(40)]
pub(crate) proof fn lemma_new_sites_are_found(
    original: Seq<u8>,
    image: ImageModel,
    plan: PlanView,
    arena: NewArena,
    prepared: ImageModel,
    now: ArenasView,
    i: int,
    index: int,
)
    requires
        plan.new_arena == Some(arena),
        are_gateways(plan),
        are_new_records_apart(plan, arena),
        applied(original, image, plan) == Ok::<Seq<u8>, PrepatchFault>(prepared.data),
        are_branches_outside(
            image,
            plan,
            inserted_at(original, image, plan, arena),
            arena_code_size(arena.capacity as int),
        ),
        scanned(prepared) == Ok::<ArenasView, PrepatchError>(now),
        has_arena(prepared, now.arenas, arena, inserted_at(original, image, plan, arena)),
        0 <= i < plan.sites.len(),
        is_sited(plan.sites[i]),
        in_new_arena(Some(arena), plan.sites[i].1.record),
        0 <= index < arena.capacity,
        plan.sites[i].1.record == arena.code_vmaddr + ARENA_HEADER_SIZE + index * RECORD_SIZE,
        plan.sites[i].1.slot == arena.data_vmaddr + index * 8,
    ensures
        now.sites.contains(plan.sites[i]),
{
    broadcast use group_field_len;

    let n = plan.sites.len() as int;
    let site = plan.sites[i];
    let at = inserted_at(original, image, plan, arena);
    let size = arena_code_size(arena.capacity as int);
    let out = prepared.data;
    let code = with_new_records(plan, arena, n)->Ok_0;
    let record = record_of(site.0, site.1)->Ok_0;
    lemma_code_inserted(original, image, plan, arena, out);
    lemma_new_records(plan, arena, n, i);
    let k = choose|k: int|
        0 <= k < now.arenas.len() && (#[trigger] now.arenas[k]).code_vmaddr == arena.code_vmaddr
            && now.arenas[k].data_vmaddr == arena.data_vmaddr;
    let listed = now.arenas[k];
    let from = site.1.record - arena.code_vmaddr;
    assert(prepared.file_offset(site.1.record, RECORD_SIZE as int)->Ok_0 == at + from);
    assert(out.subrange(at + from, at + from + RECORD_SIZE) =~= code.subrange(
        from,
        from + RECORD_SIZE,
    ));
    assert(is_written(prepared, site));
    let head = ARENA_HEADER_SIZE as int;
    assert(prepared.file_offset(arena.code_vmaddr, head)->Ok_0 == at);
    let header = out.subrange(at, at + head);
    assert(header =~= code.subrange(0, head));
    let empty = empty_arena(arena.capacity);
    assert(header.subrange(4, 8) =~= empty.subrange(4, 8));
    assert(empty.subrange(4, 8) =~= le32(arena.capacity));
    lemma_u32_at_le(header, 4, arena.capacity);
    assert(capacity_of(prepared, listed) == arena.capacity);
    assert(is_recorded_at(prepared, listed, index, site));
    law_scanned_sites_are_recorded(prepared, site);
}

proof fn lemma_remaining_len(
    so_far: Placing,
    resolved: Seq<ResolvedView>,
    missing: Seq<u64>,
    from: int,
    arena: NewArena,
    n: int,
)
    requires
        0 <= n,
    ensures
        so_far.placed.len() <= with_remaining(
            so_far,
            resolved,
            missing,
            from,
            arena,
            n,
        ).placed.len() <= so_far.placed.len() + n,
    decreases n,
{
    if n > 0 {
        lemma_remaining_len(so_far, resolved, missing, from, arena, n - 1);
    }
}

/// Where every target gets a record of a new arena, they get them in order.
pub(crate) proof fn lemma_remaining_placed(
    so_far: Placing,
    resolved: Seq<ResolvedView>,
    missing: Seq<u64>,
    from: int,
    arena: NewArena,
    n: int,
)
    requires
        0 <= n,
        with_remaining(so_far, resolved, missing, from, arena, n).placed.len()
            == so_far.placed.len() + n,
    ensures
        ({
            let placed = with_remaining(so_far, resolved, missing, from, arena, n).placed;
            forall|i: int|
                so_far.placed.len() <= i < placed.len() ==> {
                    let index = i - so_far.placed.len();
                    &&& (#[trigger] placed[i]).1.record == arena.code_vmaddr + ARENA_HEADER_SIZE
                        + index * RECORD_SIZE
                    &&& placed[i].1.slot == arena.data_vmaddr + index * 8
                }
        }),
    decreases n,
{
    if n > 0 {
        lemma_remaining_len(so_far, resolved, missing, from, arena, n - 1);
        lemma_remaining_placed(so_far, resolved, missing, from, arena, n - 1);
        let before = with_remaining(so_far, resolved, missing, from, arena, n - 1).placed;
        let after = with_remaining(so_far, resolved, missing, from, arena, n).placed;
        assert(after == before.push(after.last()));
    }
}

} // verus!
