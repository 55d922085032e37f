//! Carrying out a plan.

use vstd::prelude::*;
use crate::bytes::{
    copy_bytes, group_field_len, le32, overlay, push_bytes, push_u32, put_bytes, resize_zero,
    resized, zeros,
};
use crate::text::string_from_chars;
use crate::util::arm64::{b, b_code};
use crate::util::macho::format::MachOError;
use crate::util::macho::image::{ImageModel, MachOImage};
use crate::util::macho::insert::{
    segment_models, InsertResult, SectionModel, SectionSpec, SegmentModel, SegmentSpec,
};
use crate::util::macho::relayout::{insert_segments, with_segments};
use crate::util::manifest::embedded::{embedded_in, EmbeddedManifest};
use super::arena::{scan_arenas, scanned, Arenas, RW, RX};
use super::image::{parse_image, preparable_image};
use super::plan::{NewArena, PlanView, PrepatchPlan};
use super::site::{
    arena_code_size, encode_record, name_of_segment, record_of, segment_name, Placement,
    ARENA_HEADER_SIZE, ARENA_MAGIC, CODE_SEGMENT_PREFIX, DATA_SEGMENT_PREFIX, RECORD_SIZE,
};
use super::{PrepatchError, PrepatchFault};

verus! {

/// Whether a record stands in the arena that is to be inserted.
pub open spec fn in_new_arena(new_arena: Option<NewArena>, record: u64) -> bool {
    new_arena matches Some(arena) && arena.code_vmaddr <= record < arena.data_vmaddr
}

/// The file with bytes put where an address is mapped.
pub open spec fn put_at(out: Seq<u8>, image: ImageModel, address: u64, bytes: Seq<u8>) -> Result<
    Seq<u8>,
    PrepatchError,
> {
    match image.file_offset(address, bytes.len() as int) {
        Err(e) => Err(PrepatchError::Image(e)),
        Ok(offset) => if offset + bytes.len() > out.len() {
            Err(PrepatchError::Image(MachOError::MappedOutsideFile))
        } else {
            Ok(overlay(out, offset as int, bytes))
        },
    }
}

/// The file with the records of the first `n` sites that stand in arenas of the image.
pub open spec fn with_records(
    original: Seq<u8>,
    image: ImageModel,
    plan: PlanView,
    n: int,
) -> Result<Seq<u8>, PrepatchError>
    decreases n,
{
    if n <= 0 {
        Ok(original)
    } else {
        match with_records(original, image, plan, n - 1) {
            Err(e) => Err(e),
            Ok(out) => {
                let (target, placement) = plan.sites[n - 1];
                if in_new_arena(plan.new_arena, placement.record) {
                    Ok(out)
                } else {
                    match (
                        image.file_offset(placement.record, RECORD_SIZE as int),
                        record_of(target, placement),
                    ) {
                        (Err(e), _) => Err(PrepatchError::Image(e)),
                        (_, Err(e)) => Err(e),
                        (Ok(_), Ok(record)) => put_at(out, image, placement.record, record),
                    }
                }
            },
        }
    }
}

/// The code of an arena without sites.
pub open spec fn empty_arena(capacity: u32) -> Seq<u8> {
    resized(
        ARENA_MAGIC@ + le32(capacity) + le32(RECORD_SIZE as u32),
        arena_code_size(capacity as int),
    )
}

/// The code of the new arena, with the records of those of the first `n` sites that stand in it.
pub open spec fn with_new_records(plan: PlanView, arena: NewArena, n: int) -> Result<
    Seq<u8>,
    PrepatchError,
>
    decreases n,
{
    if n <= 0 {
        Ok(empty_arena(arena.capacity))
    } else {
        match with_new_records(plan, arena, n - 1) {
            Err(e) => Err(e),
            Ok(code) => {
                let (target, placement) = plan.sites[n - 1];
                if !in_new_arena(Some(arena), placement.record) {
                    Ok(code)
                } else {
                    match record_of(target, placement) {
                        Err(e) => Err(e),
                        Ok(record) => if placement.record - arena.code_vmaddr + RECORD_SIZE
                            > code.len() {
                            Err(PrepatchError::Placement)
                        } else {
                            Ok(overlay(code, placement.record - arena.code_vmaddr, record))
                        },
                    }
                }
            },
        }
    }
}

/// ASCII bytes as text.
pub open spec fn ascii_text(bytes: Seq<u8>) -> Seq<char> {
    Seq::new(bytes.len(), |i: int| bytes[i] as char)
}

/// The segments of the new arena: its code, and its slots.
pub open spec fn arena_segments(arena: NewArena, code: Seq<u8>) -> Seq<SegmentModel> {
    let slots = arena.capacity * 8;
    seq![
        SegmentModel {
            name: ascii_text(name_of_segment(CODE_SEGMENT_PREFIX@, arena.generation)),
            data: code,
            max_prot: RX,
            init_prot: RX,
            sections: seq![
                SectionModel {
                    name: "__arena"@,
                    offset: 0,
                    size: arena_code_size(arena.capacity as int) as u64,
                    align: 3,
                    flags: 0,
                },
            ],
        },
        SegmentModel {
            name: ascii_text(name_of_segment(DATA_SEGMENT_PREFIX@, arena.generation)),
            data: zeros(slots),
            max_prot: RW,
            init_prot: RW,
            sections: seq![
                SectionModel {
                    name: "__slots"@,
                    offset: 0,
                    size: slots as u64,
                    align: 3,
                    flags: 0,
                },
            ],
        },
    ]
}

/// The file with the new arena, which has to come where the plan says.
pub open spec fn with_arena(out: Seq<u8>, plan: PlanView) -> Result<Seq<u8>, PrepatchError> {
    match plan.new_arena {
        None => Ok(out),
        Some(arena) => if arena_code_size(arena.capacity as int) > usize::MAX {
            Err(PrepatchError::HostSpace)
        } else {
            match with_new_records(plan, arena, plan.sites.len() as int) {
                Err(e) => Err(e),
                Ok(code) => match with_segments(out, arena_segments(arena, code)) {
                    Err(e) => Err(PrepatchError::Image(e)),
                    Ok((data, places)) => if places.len() != 2 || places[0].vmaddr
                        != arena.code_vmaddr || places[1].vmaddr != arena.data_vmaddr {
                        Err(PrepatchError::Placement)
                    } else {
                        Ok(data)
                    },
                },
            }
        },
    }
}

/// The file with the branches of the first `n` sites.
pub open spec fn with_branches(
    before: Seq<u8>,
    image: ImageModel,
    plan: PlanView,
    n: int,
) -> Result<Seq<u8>, PrepatchError>
    decreases n,
{
    if n <= 0 {
        Ok(before)
    } else {
        match with_branches(before, image, plan, n - 1) {
            Err(e) => Err(e),
            Ok(out) => {
                let (target, placement) = plan.sites[n - 1];
                match (image.file_offset(target, 4), b_code(target, placement.gateway)) {
                    (Err(e), _) => Err(PrepatchError::Image(e)),
                    (_, Err(e)) => Err(PrepatchError::Encoding(e)),
                    (Ok(_), Ok(code)) => put_at(out, image, target, le32(code)),
                }
            },
        }
    }
}

/// The file that a plan makes of an image, before it is read again.
pub open spec fn patched(original: Seq<u8>, image: ImageModel, plan: PlanView) -> Result<
    Seq<u8>,
    PrepatchError,
> {
    match with_records(original, image, plan, plan.sites.len() as int) {
        Err(e) => Err(e),
        Ok(written) => match with_arena(written, plan) {
            Err(e) => Err(e),
            Ok(grown) => with_branches(grown, image, plan, plan.sites.len() as int),
        },
    }
}

/// Whether a prepared file can be read again, and all that it has to hold is there.
pub open spec fn reread(out: Seq<u8>) -> Result<Seq<u8>, PrepatchFault> {
    match preparable_image(out) {
        Err(e) => Err(PrepatchFault::Reparse(e)),
        Ok(image) => match scanned(image) {
            Err(e) => Err(PrepatchFault::Arenas(e)),
            Ok(_) => match embedded_in(out) {
                Err(e) => Err(PrepatchFault::Manifest(e)),
                Ok(_) => Ok(out),
            },
        },
    }
}

/// The file that a plan makes of an image.
pub open spec fn applied(original: Seq<u8>, image: ImageModel, plan: PlanView) -> Result<
    Seq<u8>,
    PrepatchFault,
> {
    match patched(original, image, plan) {
        Err(e) => Err(PrepatchFault::Prepatch(e)),
        Ok(out) => reread(out),
    }
}

/// Put bytes where an address is mapped.
fn write_at(out: &mut Vec<u8>, image: &MachOImage, address: u64, bytes: &[u8]) -> (r: Result<
    (),
    PrepatchError,
>)
    ensures
        match r {
            Ok(_) => put_at(old(out)@, image@, address, bytes@) == Ok::<Seq<u8>, PrepatchError>(
                final(out)@,
            ),
            Err(e) => put_at(old(out)@, image@, address, bytes@) == Err::<Seq<u8>, PrepatchError>(
                e,
            ),
        },
{
    let offset: usize = match image.vm_to_file(address, bytes.len() as u64) {
        Ok(offset) => offset,
        Err(e) => return Err(PrepatchError::Image(e)),
    };
    if offset > out.len() || bytes.len() > out.len() - offset {
        return Err(PrepatchError::Image(MachOError::MappedOutsideFile));
    }
    put_bytes(out, offset, bytes);
    Ok(())
}

proof fn lemma_records_error(
    original: Seq<u8>,
    image: ImageModel,
    plan: PlanView,
    n: int,
    m: int,
)
    requires
        0 <= n <= m,
        with_records(original, image, plan, n) is Err,
    ensures
        with_records(original, image, plan, m) == with_records(original, image, plan, n),
    decreases m,
{
    if n < m {
        lemma_records_error(original, image, plan, n, m - 1);
    }
}

/// Write the records that stand in arenas of the image.
fn write_records(original: &[u8], image: &MachOImage, plan: &PrepatchPlan) -> (r: Result<
    Vec<u8>,
    PrepatchError,
>)
    requires
        plan.is_valid(),
    ensures
        match r {
            Ok(out) => with_records(original@, image@, plan@, plan@.sites.len() as int) == Ok::<
                Seq<u8>,
                PrepatchError,
            >(out@),
            Err(e) => with_records(original@, image@, plan@, plan@.sites.len() as int) == Err::<
                Seq<u8>,
                PrepatchError,
            >(e),
        },
{
    let mut out: Vec<u8> = copy_bytes(original);
    let mut i: usize = 0;
    while i < plan.targets.len()
        invariant
            plan.is_valid(),
            i <= plan.targets@.len(),
            with_records(original@, image@, plan@, i as int) == Ok::<Seq<u8>, PrepatchError>(out@),
        decreases plan.targets@.len() - i,
    {
        let target: u64 = plan.targets[i];
        let placement: &Placement = &plan.placements[i];
        assert(plan@.sites[i as int] == (target, placement@));
        let is_new: bool = match &plan.new_arena {
            Some(arena) => arena.code_vmaddr <= placement.record && placement.record
                < arena.data_vmaddr,
            None => false,
        };
        if !is_new {
            let written: Result<(), PrepatchError> = match image.vm_to_file(
                placement.record,
                RECORD_SIZE,
            ) {
                Err(e) => Err(PrepatchError::Image(e)),
                Ok(_) => match encode_record(target, placement) {
                    Err(e) => Err(e),
                    Ok(record) => write_at(&mut out, image, placement.record, &record),
                },
            };
            match written {
                Ok(_) => {},
                Err(e) => {
                    proof {
                        lemma_records_error(
                            original@,
                            image@,
                            plan@,
                            i + 1,
                            plan@.sites.len() as int,
                        );
                    }
                    return Err(e);
                },
            }
        }
        i = i + 1;
    }
    Ok(out)
}

proof fn lemma_new_records_error(plan: PlanView, arena: NewArena, n: int, m: int)
    requires
        0 <= n <= m,
        with_new_records(plan, arena, n) is Err,
    ensures
        with_new_records(plan, arena, m) == with_new_records(plan, arena, n),
    decreases m,
{
    if n < m {
        lemma_new_records_error(plan, arena, n, m - 1);
    }
}

/// Make the code of the new arena.
fn make_code(plan: &PrepatchPlan, arena: &NewArena) -> (r: Result<Vec<u8>, PrepatchError>)
    requires
        plan.is_valid(),
        arena_code_size(arena.capacity as int) <= usize::MAX,
    ensures
        match r {
            Ok(code) => with_new_records(plan@, *arena, plan@.sites.len() as int) == Ok::<
                Seq<u8>,
                PrepatchError,
            >(code@),
            Err(e) => with_new_records(plan@, *arena, plan@.sites.len() as int) == Err::<
                Seq<u8>,
                PrepatchError,
            >(e),
        },
{
    broadcast use group_field_len;

    let mut code: Vec<u8> = Vec::new();
    push_bytes(&mut code, &ARENA_MAGIC);
    push_u32(&mut code, arena.capacity);
    push_u32(&mut code, RECORD_SIZE as u32);
    assert(code@ =~= ARENA_MAGIC@ + le32(arena.capacity) + le32(RECORD_SIZE as u32));
    let size: usize = (ARENA_HEADER_SIZE + arena.capacity as u64 * RECORD_SIZE) as usize;
    resize_zero(&mut code, size);
    assert(code@ =~= empty_arena(arena.capacity));
    let mut i: usize = 0;
    while i < plan.targets.len()
        invariant
            plan.is_valid(),
            i <= plan.targets@.len(),
            code@.len() <= usize::MAX,
            with_new_records(plan@, *arena, i as int) == Ok::<Seq<u8>, PrepatchError>(code@),
        decreases plan.targets@.len() - i,
    {
        let target: u64 = plan.targets[i];
        let placement: &Placement = &plan.placements[i];
        assert(plan@.sites[i as int] == (target, placement@));
        if arena.code_vmaddr <= placement.record && placement.record < arena.data_vmaddr {
            let offset: u64 = placement.record - arena.code_vmaddr;
            let written: Result<(), PrepatchError> = match encode_record(target, placement) {
                Err(e) => Err(e),
                Ok(record) => if offset > code.len() as u64 || RECORD_SIZE > code.len() as u64
                    - offset {
                    Err(PrepatchError::Placement)
                } else {
                    put_bytes(&mut code, offset as usize, &record);
                    Ok(())
                },
            };
            match written {
                Ok(_) => {},
                Err(e) => {
                    proof {
                        lemma_new_records_error(
                            plan@,
                            *arena,
                            i + 1,
                            plan@.sites.len() as int,
                        );
                    }
                    return Err(e);
                },
            }
        }
        i = i + 1;
    }
    Ok(code)
}

/// The name of an arena's segment as text.
fn name_segment(prefix: &[u8; 8], generation: u32) -> (r: String)
    ensures
        r@ == ascii_text(name_of_segment(prefix@, generation)),
{
    let name: Vec<u8> = segment_name(prefix, generation);
    let mut chars: Vec<char> = Vec::new();
    let mut i: usize = 0;
    while i < name.len()
        invariant
            i <= name@.len(),
            chars@ == ascii_text(name@).subrange(0, i as int),
        decreases name@.len() - i,
    {
        chars.push(name[i] as char);
        assert(chars@ =~= ascii_text(name@).subrange(0, i + 1));
        i = i + 1;
    }
    assert(chars@ =~= ascii_text(name@));
    string_from_chars(&chars)
}

/// Make the segments of the new arena.
fn make_segments(arena: &NewArena, code: Vec<u8>) -> (r: Vec<SegmentSpec>)
    requires
        arena_code_size(arena.capacity as int) <= usize::MAX,
    ensures
        segment_models(r@) == arena_segments(*arena, code@),
{
    let code_size: u64 = ARENA_HEADER_SIZE + arena.capacity as u64 * RECORD_SIZE;
    let slots_size: u64 = arena.capacity as u64 * 8;
    let mut slots: Vec<u8> = Vec::new();
    resize_zero(&mut slots, slots_size as usize);
    assert(slots@ =~= zeros(arena.capacity * 8));
    let mut code_sections: Vec<SectionSpec> = Vec::new();
    code_sections.push(
        SectionSpec { name: "__arena", offset: 0, size: code_size, align: 3, flags: 0 },
    );
    let mut slot_sections: Vec<SectionSpec> = Vec::new();
    slot_sections.push(
        SectionSpec { name: "__slots", offset: 0, size: slots_size, align: 3, flags: 0 },
    );
    let mut r: Vec<SegmentSpec> = Vec::new();
    r.push(
        SegmentSpec {
            name: name_segment(&CODE_SEGMENT_PREFIX, arena.generation),
            data: code,
            max_prot: RX,
            init_prot: RX,
            sections: code_sections,
        },
    );
    r.push(
        SegmentSpec {
            name: name_segment(&DATA_SEGMENT_PREFIX, arena.generation),
            data: slots,
            max_prot: RW,
            init_prot: RW,
            sections: slot_sections,
        },
    );
    proof {
        let wanted = arena_segments(*arena, code@);
        assert(r@[0]@.sections =~= wanted[0].sections);
        assert(r@[1]@.sections =~= wanted[1].sections);
        assert(segment_models(r@) =~= wanted);
    }
    r
}

/// Insert the new arena.
fn insert_arena(out: Vec<u8>, plan: &PrepatchPlan) -> (r: Result<Vec<u8>, PrepatchError>)
    requires
        plan.is_valid(),
    ensures
        match r {
            Ok(data) => with_arena(out@, plan@) == Ok::<Seq<u8>, PrepatchError>(data@),
            Err(e) => with_arena(out@, plan@) == Err::<Seq<u8>, PrepatchError>(e),
        },
{
    let arena: &NewArena = match &plan.new_arena {
        Some(arena) => arena,
        None => return Ok(out),
    };
    let code_size: u64 = ARENA_HEADER_SIZE + arena.capacity as u64 * RECORD_SIZE;
    if code_size > usize::MAX as u64 {
        return Err(PrepatchError::HostSpace);
    }
    let code: Vec<u8> = make_code(plan, arena)?;
    let segments: Vec<SegmentSpec> = make_segments(arena, code);
    let inserted: InsertResult = match insert_segments(out, &segments) {
        Ok(inserted) => inserted,
        Err(e) => return Err(PrepatchError::Image(e)),
    };
    if inserted.segments.len() != 2 || inserted.segments[0].vmaddr != arena.code_vmaddr
        || inserted.segments[1].vmaddr != arena.data_vmaddr {
        return Err(PrepatchError::Placement);
    }
    Ok(inserted.data)
}

proof fn lemma_branches_error(
    before: Seq<u8>,
    image: ImageModel,
    plan: PlanView,
    n: int,
    m: int,
)
    requires
        0 <= n <= m,
        with_branches(before, image, plan, n) is Err,
    ensures
        with_branches(before, image, plan, m) == with_branches(before, image, plan, n),
    decreases m,
{
    if n < m {
        lemma_branches_error(before, image, plan, n, m - 1);
    }
}

/// Write the branches at the targets.
fn write_branches(grown: Vec<u8>, image: &MachOImage, plan: &PrepatchPlan) -> (r: Result<
    Vec<u8>,
    PrepatchError,
>)
    requires
        plan.is_valid(),
    ensures
        match r {
            Ok(out) => with_branches(grown@, image@, plan@, plan@.sites.len() as int) == Ok::<
                Seq<u8>,
                PrepatchError,
            >(out@),
            Err(e) => with_branches(grown@, image@, plan@, plan@.sites.len() as int) == Err::<
                Seq<u8>,
                PrepatchError,
            >(e),
        },
{
    let ghost before = grown@;
    let mut out: Vec<u8> = grown;
    let mut i: usize = 0;
    while i < plan.targets.len()
        invariant
            plan.is_valid(),
            i <= plan.targets@.len(),
            before == grown@,
            with_branches(before, image@, plan@, i as int) == Ok::<Seq<u8>, PrepatchError>(out@),
        decreases plan.targets@.len() - i,
    {
        let target: u64 = plan.targets[i];
        let placement: &Placement = &plan.placements[i];
        assert(plan@.sites[i as int] == (target, placement@));
        let written: Result<(), PrepatchError> = match image.vm_to_file(target, 4) {
            Err(e) => Err(PrepatchError::Image(e)),
            Ok(_) => match b(target, placement.gateway) {
                Err(e) => Err(PrepatchError::Encoding(e)),
                Ok(code) => {
                    let mut branch: Vec<u8> = Vec::new();
                    push_u32(&mut branch, code);
                    assert(branch@ =~= le32(code));
                    write_at(&mut out, image, target, &branch)
                },
            },
        };
        match written {
            Ok(_) => {},
            Err(e) => {
                proof {
                    lemma_branches_error(
                        before,
                        image@,
                        plan@,
                        i + 1,
                        plan@.sites.len() as int,
                    );
                }
                return Err(e);
            },
        }
        i = i + 1;
    }
    Ok(out)
}

/// Write a plan into the file, before it is read again.
fn patch(original: &[u8], image: &MachOImage, plan: &PrepatchPlan) -> (r: Result<
    Vec<u8>,
    PrepatchError,
>)
    requires
        plan.is_valid(),
    ensures
        match r {
            Ok(out) => patched(original@, image@, plan@) == Ok::<Seq<u8>, PrepatchError>(out@),
            Err(e) => patched(original@, image@, plan@) == Err::<Seq<u8>, PrepatchError>(e),
        },
{
    let written: Vec<u8> = write_records(original, image, plan)?;
    let grown: Vec<u8> = insert_arena(written, plan)?;
    write_branches(grown, image, plan)
}

/// Carry out a plan. The result is read again: it is an image that can be prepared once more, its
/// arenas are valid, and its manifest is still there.
pub fn apply_prepatch(original: &[u8], image: &MachOImage, plan: &PrepatchPlan) -> (r: Result<
    Vec<u8>,
    PrepatchFault,
>)
    requires
        plan.is_valid(),
    ensures
        match r {
            Ok(out) => applied(original@, image@, plan@) == Ok::<Seq<u8>, PrepatchFault>(out@),
            Err(e) => applied(original@, image@, plan@) == Err::<Seq<u8>, PrepatchFault>(e),
        },
{
    let out: Vec<u8> = match patch(original, image, plan) {
        Ok(out) => out,
        Err(e) => return Err(PrepatchFault::Prepatch(e)),
    };
    let reparsed: MachOImage<'_> = match parse_image(&out) {
        Ok(image) => image,
        Err(e) => return Err(PrepatchFault::Reparse(e)),
    };
    match scan_arenas(&reparsed) {
        Ok(_) => {},
        Err(e) => return Err(PrepatchFault::Arenas(e)),
    }
    match EmbeddedManifest::parse_macho(&out) {
        Ok(_) => {},
        Err(e) => return Err(PrepatchFault::Manifest(e)),
    }
    Ok(out)
}

} // verus!
