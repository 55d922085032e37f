//! What stands apart in the file of an image, its arenas and a plan.

use vstd::prelude::*;
use crate::bytes::u32_at;
use crate::order::{lemma_sorted_form_exists, sorted_form, Ranked};
use crate::util::macho::fixups::Segment;
use crate::util::macho::image::{file_offset_from, ImageModel};
use super::apply::applied;
use super::arena::{
    arenas_state, found_segments, generations, record_state, records_state, scanned, segment_of,
    ArenaView, ArenasView,
};
use super::image::preparable_image;
use super::laws::is_apart;
use super::plan::{
    checked_targets, in_report, planned, with_arenas, with_free, Placing, PlanView,
};
use super::report::{any_failure, DeclarationView, PatchStatus};
use super::rescan::{
    capacity_of, is_place, is_recorded_at, is_untouched, keeps_arenas,
    law_scanned_sites_are_recorded, lemma_plan_sites, lemma_preparing_is_idempotent,
    lemma_record_state,
};
use super::resolve::ResolvedView;
use super::site::{arena_code_size, PlacementView, ARENA_HEADER_SIZE, RECORD_SIZE};
use super::PrepatchError;

verus! {

/// Whether two ranges share no number.
pub open spec fn ranges_apart(a: int, n: int, b: int, m: int) -> bool {
    a + n <= b || b + m <= a
}

/// Whether no two segments share an address or a byte of the file.
pub open spec fn are_segments_apart(segments: Seq<Segment>) -> bool {
    forall|i: int, j: int|
        0 <= i < j < segments.len() ==> {
            let (a, b) = (#[trigger] segments[i], #[trigger] segments[j]);
            &&& ranges_apart(
                a.vmaddr as int,
                a.filesize as int,
                b.vmaddr as int,
                b.filesize as int,
            )
            &&& ranges_apart(
                a.fileoff as int,
                a.filesize as int,
                b.fileoff as int,
                b.filesize as int,
            )
        }
}

/// Whether the targets of a plan lie outside the arenas.
pub open spec fn are_targets_outside(
    image: ImageModel,
    arenas: Seq<ArenaView>,
    plan: PlanView,
) -> bool {
    forall|i: int, k: int|
        0 <= i < plan.sites.len() && 0 <= k < arenas.len() ==> ranges_apart(
            (#[trigger] plan.sites[i]).0 as int,
            4,
            (#[trigger] arenas[k]).code_vmaddr as int,
            arena_code_size(capacity_of(image, arenas[k])),
        )
}

/// The segment through which a range is found in the file.
proof fn lemma_mapped(segments: Seq<Segment>, from: int, address: u64, end: int) -> (p: int)
    requires
        0 <= from,
        file_offset_from(segments, from, address, end) is Ok,
    ensures
        from <= p < segments.len(),
        segments[p].vmaddr <= address,
        end <= segments[p].vmaddr + segments[p].filesize,
        file_offset_from(segments, from, address, end)->Ok_0 == segments[p].fileoff + (address
            - segments[p].vmaddr),
    decreases segments.len() - from,
{
    let segment = segments[from];
    if address >= segment.vmaddr && end <= segment.vmaddr + segment.filesize {
        from
    } else {
        lemma_mapped(segments, from + 1, address, end)
    }
}

pub(crate) proof fn lemma_apart(image: ImageModel, a: u64, n: int, b: u64, m: int)
    requires
        0 <= n,
        0 <= m,
        are_segments_apart(image.segments),
        ranges_apart(a as int, n, b as int, m),
    ensures
        is_apart(image, a, n, b, m),
{
    if image.file_offset(a, n) is Ok && image.file_offset(b, m) is Ok {
        let p = lemma_mapped(image.segments, 0, a, a + n);
        let q = lemma_mapped(image.segments, 0, b, b + m);
        let (s, t) = (image.segments[p], image.segments[q]);
    }
}

proof fn lemma_found_distinct(segments: Seq<Segment>, n: int)
    requires
        0 <= n <= segments.len(),
        segments.len() <= usize::MAX,
    ensures
        found_segments(segments, n) matches Ok((code, data)) ==> {
            &&& forall|i: int| 0 <= i < code.len() ==> (#[trigger] code[i]).1 < n
            &&& forall|i: int, j: int|
                0 <= i < j < code.len() ==> (#[trigger] code[i]).1 < (#[trigger] code[j]).1
        },
    decreases n,
{
    if n > 0 {
        lemma_found_distinct(segments, n - 1);
    }
}

proof fn lemma_records_free(
    image: ImageModel,
    generation: u32,
    code: u64,
    data: u64,
    before: Seq<(u64, PlacementView)>,
    n: int,
)
    requires
        0 <= n <= u32::MAX,
    ensures
        records_state(image, generation, code, data, before, n) matches Ok((free, sites)) ==> {
            &&& forall|x: int|
                0 <= x < free.len() ==> (#[trigger] free[x]) < n && record_state(
                    image,
                    generation,
                    code,
                    data,
                    free[x],
                ) == Ok::<Option<(u64, PlacementView)>, PrepatchError>(None)
            &&& forall|x: int, y: int|
                0 <= x < y < free.len() ==> (#[trigger] free[x]) < (#[trigger] free[y])
        },
    decreases n,
{
    if n > 0 {
        lemma_records_free(image, generation, code, data, before, n - 1);
    }
}

/// Whether arenas do not overlap, and each lists its free records in order.
pub open spec fn are_arenas_apart(image: ImageModel, arenas: Seq<ArenaView>) -> bool {
    &&& forall|k: int, j: int|
        0 <= k < arenas.len() && 0 <= j < arenas.len() && k != j ==> ranges_apart(
            (#[trigger] arenas[k]).code_vmaddr as int,
            arena_code_size(capacity_of(image, arenas[k])),
            (#[trigger] arenas[j]).code_vmaddr as int,
            arena_code_size(capacity_of(image, arenas[j])),
        )
    &&& forall|k: int, x: int|
        0 <= k < arenas.len() && 0 <= x < arenas[k].free_indices.len() ==> (
        #[trigger] arenas[k].free_indices[x]) < capacity_of(image, arenas[k])
    &&& forall|k: int, x: int, y: int|
        0 <= k < arenas.len() && 0 <= x < y < arenas[k].free_indices.len() ==> (
        #[trigger] arenas[k].free_indices[x]) < (#[trigger] arenas[k].free_indices[y])
}

/// Whether no record that an arena lists as free is that of a site.
pub open spec fn are_free(image: ImageModel, arenas: Seq<ArenaView>) -> bool {
    forall|k: int, x: int, site: (u64, PlacementView)|
        0 <= k < arenas.len() && 0 <= x < arenas[k].free_indices.len() ==> !#[trigger]
            is_recorded_at(image, arenas[k], arenas[k].free_indices[x] as int, site)
}

proof fn lemma_arenas_backed(
    image: ImageModel,
    order: Seq<u32>,
    code: Seq<(u32, usize)>,
    data: Seq<(u32, usize)>,
    n: int,
)
    requires
        0 <= n,
    ensures
        arenas_state(image, order, code, data, n) matches Ok((arenas, sites)) ==> {
            &&& arenas.len() == n
            &&& forall|k: int|
                0 <= k < n ==> image.bytes(
                    (#[trigger] arenas[k]).code_vmaddr,
                    ARENA_HEADER_SIZE as int,
                ) is Ok && arenas[k].code_vmaddr == segment_of(
                    image.segments,
                    code,
                    order[k],
                ).vmaddr && arena_code_size(capacity_of(image, arenas[k])) <= segment_of(
                    image.segments,
                    code,
                    order[k],
                ).filesize
            &&& forall|k: int, x: int|
                0 <= k < n && 0 <= x < arenas[k].free_indices.len() ==> (
                #[trigger] arenas[k].free_indices[x]) < capacity_of(image, arenas[k])
            &&& forall|k: int, x: int, y: int|
                0 <= k < n && 0 <= x < y < arenas[k].free_indices.len() ==> (
                #[trigger] arenas[k].free_indices[x]) < (#[trigger] arenas[k].free_indices[y])
            &&& are_free(image, arenas)
        },
    decreases n,
{
    if n > 0 {
        lemma_arenas_backed(image, order, code, data, n - 1);
        if let Ok((arenas, sites)) = arenas_state(image, order, code, data, n) {
            let (fewer, earlier) = arenas_state(image, order, code, data, n - 1)->Ok_0;
            let arena = arenas.last();
            assert(arenas == fewer.push(arena));
            let header = image.bytes(arena.code_vmaddr, ARENA_HEADER_SIZE as int)->Ok_0;
            lemma_records_free(
                image,
                order[n - 1],
                arena.code_vmaddr,
                arena.data_vmaddr,
                earlier,
                u32_at(header, 4) as int,
            );
            assert forall|k: int, x: int, site: (u64, PlacementView)|
                0 <= k < arenas.len() && 0 <= x < arenas[k].free_indices.len() implies !#[trigger]
            is_recorded_at(image, arenas[k], arenas[k].free_indices[x] as int, site) by {
                if k < n - 1 {
                    assert(arenas[k] == fewer[k]);
                } else {
                    lemma_record_state(
                        image,
                        order[n - 1],
                        arena,
                        arena.free_indices[x],
                        site,
                    );
                }
            }
        }
    }
}

pub(crate) proof fn lemma_arenas_apart(image: ImageModel, found: ArenasView)
    requires
        scanned(image) == Ok::<ArenasView, PrepatchError>(found),
        image.segments.len() <= usize::MAX,
        are_segments_apart(image.segments),
    ensures
        are_arenas_apart(image, found.arenas),
        are_free(image, found.arenas),
{
    let (code, data) = found_segments(image.segments, image.segments.len() as int)->Ok_0;
    let order = sorted_form::<u32>(generations(code));
    lemma_sorted_form_exists::<u32>(generations(code));
    lemma_found_distinct(image.segments, image.segments.len() as int);
    lemma_arenas_backed(image, order, code, data, order.len() as int);
    let arenas = found.arenas;
    assert forall|k: int, j: int|
        0 <= k < arenas.len() && 0 <= j < arenas.len() && k != j implies ranges_apart(
        (#[trigger] arenas[k]).code_vmaddr as int,
        arena_code_size(capacity_of(image, arenas[k])),
        (#[trigger] arenas[j]).code_vmaddr as int,
        arena_code_size(capacity_of(image, arenas[j])),
    ) by {
        assert(order.contains(order[k]));
        assert(order.contains(order[j]));
        assert(generations(code).contains(order[k]));
        assert(generations(code).contains(order[j]));
        generations(code).index_of_first_ensures(order[k]);
        generations(code).index_of_first_ensures(order[j]);
        if k < j {
            assert(<u32 as Ranked>::precedes(order[k], order[j]));
        } else {
            assert(<u32 as Ranked>::precedes(order[j], order[k]));
        }
        let one = generations(code).index_of_first(order[k])->Some_0;
        let other = generations(code).index_of_first(order[j])->Some_0;
        assert(one != other);
        let (p, q) = (code[one].1 as int, code[other].1 as int);
        let (s, t) = (image.segments[p], image.segments[q]);
        if one < other {
            assert(code[one].1 < code[other].1);
        } else {
            assert(code[other].1 < code[one].1);
        }
    }
}

/// The heads of the arenas are found in the file.
pub(crate) proof fn lemma_heads_read(image: ImageModel, found: ArenasView, k: int)
    requires
        scanned(image) == Ok::<ArenasView, PrepatchError>(found),
        0 <= k < found.arenas.len(),
    ensures
        image.bytes(found.arenas[k].code_vmaddr, ARENA_HEADER_SIZE as int) is Ok,
{
    let (code, data) = found_segments(image.segments, image.segments.len() as int)->Ok_0;
    let order = sorted_form::<u32>(generations(code));
    lemma_arenas_backed(image, order, code, data, order.len() as int);
}

/// Two places of the arenas have their records apart.
proof fn lemma_places_apart(
    image: ImageModel,
    arenas: Seq<ArenaView>,
    k: int,
    index: int,
    site: (u64, PlacementView),
    j: int,
    place: int,
    other: (u64, PlacementView),
)
    requires
        are_arenas_apart(image, arenas),
        0 <= k < arenas.len(),
        0 <= index < capacity_of(image, arenas[k]),
        is_place(arenas[k], index, site),
        0 <= j < arenas.len(),
        0 <= place < capacity_of(image, arenas[j]),
        is_place(arenas[j], place, other),
        k != j || index != place,
    ensures
        ranges_apart(
            site.1.record as int,
            RECORD_SIZE as int,
            other.1.record as int,
            RECORD_SIZE as int,
        ),
{
    let (a, b) = (arenas[k], arenas[j]);
}

/// Whether a site has a free record before the record `n` that arena `k` lists.
pub open spec fn is_placed_before(
    arenas: Seq<ArenaView>,
    site: (u64, PlacementView),
    k: int,
    n: int,
) -> bool {
    exists|j: int, x: int|
        0 <= j < arenas.len() && 0 <= x < arenas[j].free_indices.len() && (j < k || j == k && x < n)
            && is_place(arenas[j], #[trigger] arenas[j].free_indices[x] as int, site)
}

/// Whether all sites have free records before a place, no two of which overlap.
pub open spec fn are_placed_apart(
    arenas: Seq<ArenaView>,
    sites: Seq<(u64, PlacementView)>,
    k: int,
    n: int,
) -> bool {
    &&& forall|i: int| 0 <= i < sites.len() ==> is_placed_before(arenas, #[trigger] sites[i], k, n)
    &&& forall|i: int, j: int|
        0 <= i < j < sites.len() ==> ranges_apart(
            (#[trigger] sites[i]).1.record as int,
            RECORD_SIZE as int,
            (#[trigger] sites[j]).1.record as int,
            RECORD_SIZE as int,
        )
}

proof fn lemma_placed_later(
    arenas: Seq<ArenaView>,
    sites: Seq<(u64, PlacementView)>,
    k: int,
    n: int,
    l: int,
    m: int,
)
    requires
        are_placed_apart(arenas, sites, k, n),
        k < l || k == l && n <= m,
    ensures
        are_placed_apart(arenas, sites, l, m),
{
    assert forall|i: int| 0 <= i < sites.len() implies is_placed_before(
        arenas,
        #[trigger] sites[i],
        l,
        m,
    ) by {
        assert(is_placed_before(arenas, sites[i], k, n));
    }
}

proof fn lemma_free_apart(
    image: ImageModel,
    so_far: Placing,
    resolved: Seq<ResolvedView>,
    missing: Seq<u64>,
    arenas: Seq<ArenaView>,
    k: int,
    n: int,
)
    requires
        are_arenas_apart(image, arenas),
        0 <= k < arenas.len(),
        0 <= n <= arenas[k].free_indices.len(),
        are_placed_apart(arenas, so_far.placed, k, 0),
    ensures
        are_placed_apart(
            arenas,
            with_free(so_far, resolved, missing, arenas[k], n).placed,
            k,
            n,
        ),
    decreases n,
{
    if n > 0 {
        lemma_free_apart(image, so_far, resolved, missing, arenas, k, n - 1);
        let before = with_free(so_far, resolved, missing, arenas[k], n - 1).placed;
        let after = with_free(so_far, resolved, missing, arenas[k], n).placed;
        lemma_placed_later(arenas, before, k, n - 1, k, n);
        if after != before {
            let new = after.last();
            let index = arenas[k].free_indices[n - 1] as int;
            assert(after == before.push(new));
            assert(is_place(arenas[k], index, new));
            assert(is_placed_before(arenas, new, k, n));
            assert forall|i: int| 0 <= i < before.len() implies ranges_apart(
                (#[trigger] before[i]).1.record as int,
                RECORD_SIZE as int,
                new.1.record as int,
                RECORD_SIZE as int,
            ) by {
                let placed = before[i];
                lemma_free_apart(image, so_far, resolved, missing, arenas, k, n - 1);
                assert(is_placed_before(arenas, placed, k, n - 1));
                let (j, x) = choose|j: int, x: int|
                    0 <= j < arenas.len() && 0 <= x < arenas[j].free_indices.len() && (j < k || j
                        == k && x < n - 1) && is_place(
                        arenas[j],
                        #[trigger] arenas[j].free_indices[x] as int,
                        placed,
                    );
                let place = arenas[j].free_indices[x] as int;
                if j == k {
                    assert(arenas[k].free_indices[x] < arenas[k].free_indices[n - 1]);
                }
                lemma_places_apart(image, arenas, j, place, placed, k, index, new);
            }
        }
    }
}

pub(crate) proof fn lemma_arenas_placed_apart(
    image: ImageModel,
    so_far: Placing,
    resolved: Seq<ResolvedView>,
    missing: Seq<u64>,
    arenas: Seq<ArenaView>,
    n: int,
)
    requires
        are_arenas_apart(image, arenas),
        0 <= n <= arenas.len(),
        so_far.placed.len() == 0,
    ensures
        are_placed_apart(arenas, with_arenas(so_far, resolved, missing, arenas, n).placed, n, 0),
    decreases n,
{
    if n > 0 {
        lemma_arenas_placed_apart(image, so_far, resolved, missing, arenas, n - 1);
        let before = with_arenas(so_far, resolved, missing, arenas, n - 1);
        let count = arenas[n - 1].free_indices.len() as int;
        lemma_free_apart(image, before, resolved, missing, arenas, n - 1, count);
        lemma_placed_later(
            arenas,
            with_arenas(so_far, resolved, missing, arenas, n).placed,
            n - 1,
            count,
            n,
            0,
        );
    }
}

/// A record of an arena stands apart from what lies outside the arenas.
proof fn lemma_outside(
    image: ImageModel,
    arenas: Seq<ArenaView>,
    plan: PlanView,
    k: int,
    index: int,
    site: (u64, PlacementView),
    i: int,
)
    requires
        are_segments_apart(image.segments),
        are_targets_outside(image, arenas, plan),
        0 <= k < arenas.len(),
        0 <= index < capacity_of(image, arenas[k]),
        is_place(arenas[k], index, site),
        0 <= i < plan.sites.len(),
    ensures
        is_apart(image, plan.sites[i].0, 4, site.1.record, RECORD_SIZE as int),
        is_apart(image, site.1.record, RECORD_SIZE as int, plan.sites[i].0, 4),
{
    let target = plan.sites[i].0;
    let arena = arenas[k];
    assert(ranges_apart(
        target as int,
        4,
        arena.code_vmaddr as int,
        arena_code_size(capacity_of(image, arena)),
    ));
    lemma_apart(image, target, 4, site.1.record, RECORD_SIZE as int);
    lemma_apart(image, site.1.record, RECORD_SIZE as int, target, 4);
}

pub(crate) proof fn lemma_keeps_arenas(image: ImageModel, found: ArenasView, plan: PlanView)
    requires
        scanned(image) == Ok::<ArenasView, PrepatchError>(found),
        image.segments.len() <= usize::MAX,
        are_segments_apart(image.segments),
        are_placed_apart(found.arenas, plan.sites, found.arenas.len() as int, 0),
        are_targets_outside(image, found.arenas, plan),
    ensures
        keeps_arenas(image, found, plan),
{
    let arenas = found.arenas;
    let last = arenas.len() as int;
    lemma_arenas_apart(image, found);
    assert forall|i: int, j: int|
        0 <= i < plan.sites.len() && 0 <= j < plan.sites.len() implies ({
        let record = (#[trigger] plan.sites[i]).1.record;
        let (target, placement) = #[trigger] plan.sites[j];
        &&& i != j ==> is_apart(
            image,
            record,
            RECORD_SIZE as int,
            placement.record,
            RECORD_SIZE as int,
        )
        &&& is_apart(image, record, RECORD_SIZE as int, target, 4)
    }) by {
        let (one, other) = (plan.sites[i], plan.sites[j]);
        assert(is_placed_before(arenas, one, last, 0));
        let (k, x) = choose|k: int, x: int|
            0 <= k < arenas.len() && 0 <= x < arenas[k].free_indices.len() && (k < last || k == last
                && x < 0) && is_place(arenas[k], #[trigger] arenas[k].free_indices[x] as int, one);
        lemma_outside(image, arenas, plan, k, arenas[k].free_indices[x] as int, one, j);
        if i != j {
            if i < j {
                assert(ranges_apart(
                    plan.sites[i].1.record as int,
                    RECORD_SIZE as int,
                    plan.sites[j].1.record as int,
                    RECORD_SIZE as int,
                ));
            } else {
                assert(ranges_apart(
                    plan.sites[j].1.record as int,
                    RECORD_SIZE as int,
                    plan.sites[i].1.record as int,
                    RECORD_SIZE as int,
                ));
            }
            lemma_apart(
                image,
                one.1.record,
                RECORD_SIZE as int,
                other.1.record,
                RECORD_SIZE as int,
            );
        }
    }
    assert forall|k: int| 0 <= k < arenas.len() implies is_untouched(
        image,
        plan,
        (#[trigger] arenas[k]).code_vmaddr,
        ARENA_HEADER_SIZE as int,
    ) by {
        lemma_header_untouched(image, found, plan, k);
    }
    assert forall|s: int| 0 <= s < found.sites.len() implies is_untouched(
        image,
        plan,
        (#[trigger] found.sites[s]).1.record,
        RECORD_SIZE as int,
    ) by {
        lemma_site_untouched(image, found, plan, s);
    }
}

proof fn lemma_header_untouched(image: ImageModel, found: ArenasView, plan: PlanView, k: int)
    requires
        are_segments_apart(image.segments),
        are_arenas_apart(image, found.arenas),
        are_placed_apart(found.arenas, plan.sites, found.arenas.len() as int, 0),
        are_targets_outside(image, found.arenas, plan),
        0 <= k < found.arenas.len(),
    ensures
        is_untouched(image, plan, found.arenas[k].code_vmaddr, ARENA_HEADER_SIZE as int),
{
    let arenas = found.arenas;
    let last = arenas.len() as int;
    let address = arenas[k].code_vmaddr;
    assert forall|i: int| 0 <= i < plan.sites.len() implies is_apart(
        image,
        (#[trigger] plan.sites[i]).1.record,
        RECORD_SIZE as int,
        address,
        ARENA_HEADER_SIZE as int,
    ) && is_apart(image, plan.sites[i].0, 4, address, ARENA_HEADER_SIZE as int) by {
        let site = plan.sites[i];
        assert(is_placed_before(arenas, site, last, 0));
        let (j, x) = choose|j: int, x: int|
            0 <= j < arenas.len() && 0 <= x < arenas[j].free_indices.len() && (j < last || j == last
                && x < 0) && is_place(arenas[j], #[trigger] arenas[j].free_indices[x] as int, site);
        let (a, b) = (arenas[k], arenas[j]);
        lemma_apart(
            image,
            site.1.record,
            RECORD_SIZE as int,
            address,
            ARENA_HEADER_SIZE as int,
        );
        lemma_apart(image, site.0, 4, address, ARENA_HEADER_SIZE as int);
    }
}

proof fn lemma_site_untouched(image: ImageModel, found: ArenasView, plan: PlanView, s: int)
    requires
        scanned(image) == Ok::<ArenasView, PrepatchError>(found),
        are_segments_apart(image.segments),
        are_arenas_apart(image, found.arenas),
        are_free(image, found.arenas),
        are_placed_apart(found.arenas, plan.sites, found.arenas.len() as int, 0),
        are_targets_outside(image, found.arenas, plan),
        0 <= s < found.sites.len(),
    ensures
        is_untouched(image, plan, found.sites[s].1.record, RECORD_SIZE as int),
{
    let arenas = found.arenas;
    let last = arenas.len() as int;
    let kept = found.sites[s];
    assert(found.sites.contains(kept));
    law_scanned_sites_are_recorded(image, kept);
    let (k, index) = choose|k: int, index: int|
        0 <= k < arenas.len() && 0 <= index < capacity_of(image, arenas[k])
            && #[trigger] is_recorded_at(image, arenas[k], index, kept);
    assert forall|i: int| 0 <= i < plan.sites.len() implies is_apart(
        image,
        (#[trigger] plan.sites[i]).1.record,
        RECORD_SIZE as int,
        kept.1.record,
        RECORD_SIZE as int,
    ) && is_apart(image, plan.sites[i].0, 4, kept.1.record, RECORD_SIZE as int) by {
        let site = plan.sites[i];
        assert(is_placed_before(arenas, site, last, 0));
        let (j, x) = choose|j: int, x: int|
            0 <= j < arenas.len() && 0 <= x < arenas[j].free_indices.len() && (j < last || j == last
                && x < 0) && is_place(arenas[j], #[trigger] arenas[j].free_indices[x] as int, site);
        let place = arenas[j].free_indices[x] as int;
        assert(!is_recorded_at(image, arenas[j], arenas[j].free_indices[x] as int, kept));
        lemma_places_apart(image, arenas, j, place, site, k, index, kept);
        lemma_apart(
            image,
            site.1.record,
            RECORD_SIZE as int,
            kept.1.record,
            RECORD_SIZE as int,
        );
        lemma_outside(image, arenas, plan, k, index, kept, i);
    }
}

/// A plan that needs no new arena is carried out once: with the image that it gives, which maps the
/// file as before, there is nothing left to add, and each declaration is reported as existing.
///
/// An image whose segments overlap is left out, and so is a target inside an arena.
pub(crate) proof fn lemma_reusing_is_idempotent(
    image: ImageModel,
    found: ArenasView,
    resolved: Seq<ResolvedView>,
    declarations: Seq<DeclarationView>,
    plan: PlanView,
    prepared: ImageModel,
    again: Seq<DeclarationView>,
)
    requires
        in_report(resolved, declarations.len() as int),
        scanned(image) == Ok::<ArenasView, PrepatchError>(found),
        planned(image, resolved, declarations).outcome == Ok::<Option<PlanView>, PrepatchError>(
            Some(plan),
        ),
        plan.new_arena is None,
        image.segments.len() <= usize::MAX,
        are_segments_apart(image.segments),
        are_targets_outside(image, found.arenas, plan),
        applied(image.data, image, plan) matches Ok(out) && preparable_image(out) == Ok::<
            ImageModel,
            PrepatchError,
        >(prepared),
        prepared.segments == image.segments,
        in_report(resolved, again.len() as int),
        !any_failure(again),
    ensures
        ({
            let all = planned(prepared, resolved, again);
            &&& all.outcome == Ok::<Option<PlanView>, PrepatchError>(None)
            &&& forall|i: int|
                0 <= i < resolved.len() ==> all.declarations[(
                #[trigger] resolved[i]).report_index as int].patch_status == Some(
                    PatchStatus::Existing,
                )
        }),
{
    let c = checked_targets(image, found, resolved, declarations);
    let none = Placing {
        declarations: c.declarations,
        placed: Seq::empty(),
        next: 0,
        fault: None,
    };
    lemma_arenas_apart(image, found);
    lemma_arenas_placed_apart(
        image,
        none,
        resolved,
        c.missing,
        found.arenas,
        found.arenas.len() as int,
    );
    lemma_plan_sites(image, found, resolved, declarations, plan);
    lemma_keeps_arenas(image, found, plan);
    lemma_preparing_is_idempotent(image, found, resolved, declarations, plan, prepared, again);
}

} // verus!
