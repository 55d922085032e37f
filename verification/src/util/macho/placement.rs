//! Where inserted segments come to stand.

use vstd::prelude::*;
use crate::bytes::{align_int, lemma_align_int, push_bytes, resize_zero, resized};
use super::format::{align_up, MachOError};
use super::insert::{
    section_models, segment_models, InsertedSegment, SectionModel, SectionSpec, SegmentModel,
    SegmentSpec,
};

verus! {

/// Bytes that a segment takes in the file.
pub open spec fn placed_size(spec: SegmentModel, page: u64) -> int {
    align_int(spec.data.len() as int, page as int)
}

/// Bytes that the first `n` segments take in the file.
pub open spec fn placed_before(specs: Seq<SegmentModel>, page: u64, n: int) -> int
    decreases n,
{
    if n <= 0 {
        0
    } else {
        placed_before(specs, page, n - 1) + placed_size(specs[n - 1], page)
    }
}

/// Where the segments stand: one behind the other from `vmaddr` and `fileoff` on.
pub open spec fn placements(
    specs: Seq<SegmentModel>,
    page: u64,
    vmaddr: u64,
    fileoff: u64,
) -> Seq<InsertedSegment> {
    Seq::new(
        specs.len(),
        |i: int|
            InsertedSegment {
                vmaddr: (vmaddr + placed_before(specs, page, i)) as u64,
                fileoff: (fileoff + placed_before(specs, page, i)) as u64,
                filesize: placed_size(specs[i], page) as u64,
            },
    )
}

/// Whether a section lies inside its segment and is aligned where the segment stands.
pub open spec fn section_fits(
    section: SectionModel,
    data_len: int,
    vmaddr: int,
    fileoff: int,
) -> Result<(), MachOError> {
    let alignment = (1u64 << section.align) as int;
    if section.offset + section.size > u64::MAX {
        Err(MachOError::SectionRangeOverflow)
    } else if section.offset + section.size > data_len {
        Err(MachOError::SectionPastSegment)
    } else if section.align >= 64 {
        Err(MachOError::SectionAlignTooLarge)
    } else if vmaddr + section.offset > u64::MAX || fileoff + section.offset > u64::MAX {
        Err(MachOError::SectionOverflow)
    } else if (vmaddr + section.offset) % alignment != 0 || (fileoff + section.offset) % alignment
        != 0 {
        Err(MachOError::SectionMisaligned)
    } else {
        Ok(())
    }
}

/// Whether the sections from `from` on fit, or why the first that does not is refused.
pub open spec fn sections_fit(
    sections: Seq<SectionModel>,
    from: int,
    data_len: int,
    vmaddr: int,
    fileoff: int,
) -> Result<(), MachOError>
    decreases sections.len() - from,
{
    if from >= sections.len() {
        Ok(())
    } else {
        match section_fits(sections[from], data_len, vmaddr, fileoff) {
            Err(e) => Err(e),
            Ok(_) => sections_fit(sections, from + 1, data_len, vmaddr, fileoff),
        }
    }
}

/// Whether the segments from `from` on can be placed, or why the first that cannot is refused.
pub open spec fn placements_fit(
    specs: Seq<SegmentModel>,
    from: int,
    page: u64,
    vmaddr: u64,
    fileoff: u64,
) -> Result<(), MachOError>
    decreases specs.len() - from,
{
    if from >= specs.len() {
        Ok(())
    } else {
        let spec = specs[from];
        let before = placed_before(specs, page, from);
        if spec.data.len() == 0 {
            Err(MachOError::EmptySegment)
        } else if placed_size(spec, page) > u64::MAX {
            Err(MachOError::AlignOverflow)
        } else if vmaddr + before > u64::MAX || fileoff + before > u64::MAX {
            Err(MachOError::InsertedOverflow)
        } else {
            match sections_fit(
                spec.sections,
                0,
                spec.data.len() as int,
                vmaddr + before,
                fileoff + before,
            ) {
                Err(e) => Err(e),
                Ok(_) => if placed_before(specs, page, from + 1) > u64::MAX {
                    Err(MachOError::InsertedOverflow)
                } else {
                    placements_fit(specs, from + 1, page, vmaddr, fileoff)
                },
            }
        }
    }
}

/// The file contents of the first `n` segments.
pub open spec fn placed_bytes(specs: Seq<SegmentModel>, page: u64, n: int) -> Seq<u8>
    decreases n,
{
    if n <= 0 {
        Seq::empty()
    } else {
        placed_bytes(specs, page, n - 1) + resized(
            specs[n - 1].data,
            placed_size(specs[n - 1], page),
        )
    }
}

/// The segments take room in order.
pub proof fn lemma_placed_before(specs: Seq<SegmentModel>, page: u64, i: int, n: int)
    requires
        0 < page,
        i <= n <= specs.len(),
    ensures
        placed_before(specs, page, i) <= placed_before(specs, page, n),
        0 <= placed_before(specs, page, i),
    decreases n,
{
    if n > 0 {
        lemma_align_int(specs[n - 1].data.len() as int, page as int);
        if i < n {
            lemma_placed_before(specs, page, i, n - 1);
        } else {
            lemma_placed_before(specs, page, n - 1, n - 1);
        }
    }
}

/// The contents of the first `n` segments fill the room that they take, and each segment's data
/// stands where the segment was placed.
pub proof fn lemma_placed_bytes(specs: Seq<SegmentModel>, page: u64, n: int)
    requires
        0 < page,
        0 <= n <= specs.len(),
    ensures
        placed_bytes(specs, page, n).len() == placed_before(specs, page, n),
        forall|i: int|
            0 <= i < n ==> #[trigger] placed_before(specs, page, i) + specs[i].data.len()
                <= placed_before(specs, page, n) && placed_bytes(specs, page, n).subrange(
                placed_before(specs, page, i),
                placed_before(specs, page, i) + specs[i].data.len(),
            ) == specs[i].data,
    decreases n,
{
    if n > 0 {
        lemma_placed_bytes(specs, page, n - 1);
        lemma_align_int(specs[n - 1].data.len() as int, page as int);
        lemma_placed_before(specs, page, n - 1, n);
        let all = placed_bytes(specs, page, n);
        let front = placed_bytes(specs, page, n - 1);
        assert forall|i: int| 0 <= i < n implies #[trigger] placed_before(specs, page, i)
            + specs[i].data.len() <= placed_before(specs, page, n) && all.subrange(
            placed_before(specs, page, i),
            placed_before(specs, page, i) + specs[i].data.len(),
        ) == specs[i].data by {
            let at = placed_before(specs, page, i);
            let len = specs[i].data.len();
            lemma_placed_before(specs, page, i, n - 1);
            if i < n - 1 {
                assert(all.subrange(at, at + len) =~= front.subrange(at, at + len));
            } else {
                assert(all.subrange(at, at + len) =~= specs[i].data);
            }
        }
    }
}

/// Check one section.
fn check_section(section: &SectionSpec, data_len: u64, vmaddr: u64, fileoff: u64) -> (r: Result<
    (),
    MachOError,
>)
    ensures
        r == section_fits(section@, data_len as int, vmaddr as int, fileoff as int),
{
    let end: u64 = match section.offset.checked_add(section.size) {
        Some(end) => end,
        None => return Err(MachOError::SectionRangeOverflow),
    };
    if end > data_len {
        return Err(MachOError::SectionPastSegment);
    }
    if section.align >= 64 {
        return Err(MachOError::SectionAlignTooLarge);
    }
    let align: u32 = section.align;
    assert(align < 64 ==> (1u64 << align) != 0) by (bit_vector);
    let alignment: u64 = 1u64 << align;
    let section_vmaddr: u64 = match vmaddr.checked_add(section.offset) {
        Some(v) => v,
        None => return Err(MachOError::SectionOverflow),
    };
    let section_fileoff: u64 = match fileoff.checked_add(section.offset) {
        Some(v) => v,
        None => return Err(MachOError::SectionOverflow),
    };
    if section_vmaddr % alignment != 0 || section_fileoff % alignment != 0 {
        return Err(MachOError::SectionMisaligned);
    }
    Ok(())
}

/// Check the sections of a segment.
fn check_sections(sections: &[SectionSpec], data_len: u64, vmaddr: u64, fileoff: u64) -> (r: Result<
    (),
    MachOError,
>)
    ensures
        r == sections_fit(section_models(sections@), 0, data_len as int, vmaddr as int, fileoff as int),
{
    let mut i: usize = 0;
    while i < sections.len()
        invariant
            i <= section_models(sections@).len(),
            sections_fit(section_models(sections@), i as int, data_len as int, vmaddr as int, fileoff as int)
                == sections_fit(section_models(sections@), 0, data_len as int, vmaddr as int, fileoff as int),
        decreases section_models(sections@).len() - i,
    {
        check_section(&sections[i], data_len, vmaddr, fileoff)?;
        i = i + 1;
    }
    Ok(())
}

/// Place the segments one behind the other; also gives the bytes that they take together.
pub fn place_segments(specs: &[SegmentSpec], page: u64, vmaddr: u64, fileoff: u64) -> (r: Result<
    (Vec<InsertedSegment>, u64),
    MachOError,
>)
    requires
        0 < page,
    ensures
        match r {
            Ok((placed, delta)) => placements_fit(segment_models(specs@), 0, page, vmaddr, fileoff) == Ok::<
                (),
                MachOError,
            >(()) && placed@ == placements(segment_models(specs@), page, vmaddr, fileoff) && delta
                == placed_before(segment_models(specs@), page, segment_models(specs@).len() as int),
            Err(e) => placements_fit(segment_models(specs@), 0, page, vmaddr, fileoff) == Err::<(), MachOError>(e),
        },
{
    let mut placed: Vec<InsertedSegment> = Vec::new();
    let mut delta: u64 = 0;
    let mut i: usize = 0;
    while i < specs.len()
        invariant
            0 < page,
            i <= segment_models(specs@).len(),
            delta == placed_before(segment_models(specs@), page, i as int),
            placed@.len() == i,
            forall|j: int|
                0 <= j < i ==> placed@[j] == placements(segment_models(specs@), page, vmaddr, fileoff)[j],
            placements_fit(segment_models(specs@), i as int, page, vmaddr, fileoff) == placements_fit(
                segment_models(specs@),
                0,
                page,
                vmaddr,
                fileoff,
            ),
        decreases segment_models(specs@).len() - i,
    {
        let spec: &SegmentSpec = &specs[i];
        if spec.data.len() == 0 {
            return Err(MachOError::EmptySegment);
        }
        let filesize: u64 = align_up(spec.data.len() as u64, page)?;
        let segment_vmaddr: u64 = match vmaddr.checked_add(delta) {
            Some(v) => v,
            None => return Err(MachOError::InsertedOverflow),
        };
        let segment_fileoff: u64 = match fileoff.checked_add(delta) {
            Some(v) => v,
            None => return Err(MachOError::InsertedOverflow),
        };
        check_sections(&spec.sections, spec.data.len() as u64, segment_vmaddr, segment_fileoff)?;
        placed.push(
            InsertedSegment { vmaddr: segment_vmaddr, fileoff: segment_fileoff, filesize },
        );
        delta =
        match delta.checked_add(filesize) {
            Some(v) => v,
            None => return Err(MachOError::InsertedOverflow),
        };
        i = i + 1;
    }
    assert(placed@ =~= placements(segment_models(specs@), page, vmaddr, fileoff));
    Ok((placed, delta))
}

/// Append the contents of the segments.
pub fn push_placed(out: &mut Vec<u8>, specs: &[SegmentSpec], page: u64)
    requires
        0 < page,
        old(out)@.len() + placed_before(segment_models(specs@), page, segment_models(specs@).len() as int) <= usize::MAX,
        placed_before(segment_models(specs@), page, segment_models(specs@).len() as int) <= u64::MAX,
    ensures
        final(out)@ == old(out)@ + placed_bytes(segment_models(specs@), page, segment_models(specs@).len() as int),
{
    let ghost before = out@;
    let mut i: usize = 0;
    while i < specs.len()
        invariant
            0 < page,
            i <= segment_models(specs@).len(),
            before.len() + placed_before(segment_models(specs@), page, segment_models(specs@).len() as int) <= usize::MAX,
            out@ == before + placed_bytes(segment_models(specs@), page, i as int),
        decreases segment_models(specs@).len() - i,
    {
        proof {
            lemma_placed_bytes(segment_models(specs@), page, i as int);
            lemma_placed_before(segment_models(specs@), page, i + 1, segment_models(specs@).len() as int);
            lemma_align_int(segment_models(specs@)[i as int].data.len() as int, page as int);
        }
        let len: usize = specs[i].data.len();
        let rest: usize = if len as u64 % page == 0 {
            0
        } else {
            (page - len as u64 % page) as usize
        };
        let end: usize = out.len() + len + rest;
        let ghost start = out@;
        push_bytes(out, &specs[i].data);
        resize_zero(out, end);
        assert(out@ =~= start + resized(
            segment_models(specs@)[i as int].data,
            placed_size(segment_models(specs@)[i as int], page),
        ));
        i = i + 1;
        assert(out@ =~= before + placed_bytes(segment_models(specs@), page, i as int));
    }
    assert(out@ =~= before + placed_bytes(segment_models(specs@), page, segment_models(specs@).len() as int));
}

} // verus!
