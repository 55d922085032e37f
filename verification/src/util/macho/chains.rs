//! Chained fixups.

use vstd::prelude::*;
use crate::bytes::{
    c_string, find_zero, get_u16, get_u32, get_u64, u16_at, u32_at, u64_at,
};
use crate::text::{shown_text, symbol_string, without_underscore};
use super::fixups::{fixup_models, Fixup, FixupModel, FixupTarget, TargetModel};
use super::format::{field_u32, MachOError};
use super::image::{ImageModel, MachOImage};

verus! {

/// The table offsets of a chained-fixups header.
#[derive(Clone, Copy, Debug, PartialEq, Eq, Structural)]
pub struct ChainedHeader {
    pub starts: u32,
    pub imports: u32,
    pub symbols: u32,
    pub imports_count: u32,
    pub imports_format: u32,
}

/// The chains of one segment.
#[derive(Clone, Copy, Debug, PartialEq, Eq, Structural)]
pub struct ChainedSegment {
    pub info: u64,
    pub info_end: u64,
    pub page_size: u16,
    pub pointer_format: u16,
    pub segment_offset: u64,
    pub page_count: u16,
}

/// The header of a chained-fixups blob.
pub open spec fn chained_header(blob: Seq<u8>) -> Result<ChainedHeader, MachOError> {
    if blob.len() < 4 {
        Err(MachOError::TruncatedFixups)
    } else if u32_at(blob, 0) != 0 {
        Err(MachOError::FixupsVersion(u32_at(blob, 0)))
    } else if blob.len() < 24 {
        Err(MachOError::TruncatedFixups)
    } else {
        Ok(
            ChainedHeader {
                starts: u32_at(blob, 4),
                imports: u32_at(blob, 8),
                symbols: u32_at(blob, 12),
                imports_count: u32_at(blob, 16),
                imports_format: u32_at(blob, 20),
            },
        )
    }
}

/// The name of an imported symbol, without one leading underscore.
pub open spec fn import_name(blob: Seq<u8>, header: ChainedHeader, ordinal: int) -> Option<
    Seq<char>,
> {
    let entry = header.imports + 4 * ordinal;
    if header.imports_format != 1 || ordinal >= header.imports_count || entry + 4 > blob.len() {
        None
    } else {
        let at = header.symbols + u32_at(blob, entry) / 512;
        if at > blob.len() {
            None
        } else {
            match c_string(blob.subrange(at, blob.len() as int)) {
                None => None,
                Some(name) => Some(shown_text(without_underscore(name))),
            }
        }
    }
}

/// What a chained pointer stands for.
pub open spec fn chained_target(
    image: ImageModel,
    blob: Seq<u8>,
    header: ChainedHeader,
    format: u16,
    raw: u64,
) -> Result<TargetModel, MachOError> {
    if raw >= 0x8000_0000_0000_0000 {
        Ok(TargetModel::Bind(import_name(blob, header, (raw % 0x100_0000) as int)))
    } else {
        let target = raw % 0x10_0000_0000 + (raw / 0x10_0000_0000 % 0x100)
            * 0x100_0000_0000_0000;
        if format == 2 {
            Ok(TargetModel::Rebase(target as u64))
        } else if image.preferred_base + target > u64::MAX {
            Err(MachOError::ChainedOverflow)
        } else {
            Ok(TargetModel::Rebase((image.preferred_base + target) as u64))
        }
    }
}

/// The fixups of the chain at `location`, behind those of `done`.
pub open spec fn chain_from(
    image: ImageModel,
    blob: Seq<u8>,
    header: ChainedHeader,
    format: u16,
    page_end: u64,
    location: u64,
    done: Seq<FixupModel>,
) -> Result<Seq<FixupModel>, MachOError>
    decreases u64::MAX - location,
{
    if location + 8 > page_end {
        Err(MachOError::ChainedEscapesPage)
    } else {
        match image.bytes(location, 8) {
            Err(e) => Err(e),
            Ok(bytes) => {
                let raw = u64_at(bytes, 0);
                let next = raw / 0x8_0000_0000_0000 % 0x1000;
                match chained_target(image, blob, header, format, raw) {
                    Err(e) => Err(e),
                    Ok(target) => {
                        let more = done.push(FixupModel { location, target });
                        if next == 0 {
                            Ok(more)
                        } else if location + next * 4 > u64::MAX {
                            Err(MachOError::ChainedOverflow)
                        } else {
                            chain_from(
                                image,
                                blob,
                                header,
                                format,
                                page_end,
                                (location + next * 4) as u64,
                                more,
                            )
                        }
                    },
                }
            },
        }
    }
}

/// The chain starts from `index` on in the table behind the page starts, behind those of `done`.
pub open spec fn multi_starts(
    blob: Seq<u8>,
    table: int,
    info_end: int,
    index: int,
    done: Seq<u16>,
) -> Result<Seq<u16>, MachOError>
    decreases info_end - table - 2 * index,
{
    if table + 2 * index + 2 > info_end {
        Err(MachOError::ChainedTruncatedMulti)
    } else {
        let start = u16_at(blob, table + 2 * index);
        let more = done.push((start % 0x4000) as u16);
        if start >= 0x8000 {
            Ok(more)
        } else {
            multi_starts(blob, table, info_end, index + 1, more)
        }
    }
}

/// The chain starts of a page: none, the one named, or those of the table behind the page starts.
pub open spec fn page_starts(blob: Seq<u8>, segment: ChainedSegment, page: int) -> Result<
    Seq<u16>,
    MachOError,
> {
    let start = u16_at(blob, segment.info + 22 + 2 * page);
    if start == 0xffff {
        Ok(Seq::empty())
    } else if start < 0x8000 {
        Ok(seq![start])
    } else {
        multi_starts(
            blob,
            segment.info + 22 + 2 * segment.page_count,
            segment.info_end as int,
            (start % 0x8000) as int,
            Seq::empty(),
        )
    }
}

/// The fixups of the chains from `from` on of a page, behind those of `done`.
pub open spec fn starts_from(
    image: ImageModel,
    blob: Seq<u8>,
    header: ChainedHeader,
    format: u16,
    page_base: u64,
    page_end: u64,
    starts: Seq<u16>,
    from: int,
    done: Seq<FixupModel>,
) -> Result<Seq<FixupModel>, MachOError>
    decreases starts.len() - from,
{
    if from >= starts.len() {
        Ok(done)
    } else if page_base + starts[from] > u64::MAX {
        Err(MachOError::ChainedOverflow)
    } else {
        match chain_from(
            image,
            blob,
            header,
            format,
            page_end,
            (page_base + starts[from]) as u64,
            done,
        ) {
            Err(e) => Err(e),
            Ok(next) => starts_from(
                image,
                blob,
                header,
                format,
                page_base,
                page_end,
                starts,
                from + 1,
                next,
            ),
        }
    }
}

/// The fixups of the page `page`, behind those of `done`.
pub open spec fn page_fixups(
    image: ImageModel,
    blob: Seq<u8>,
    header: ChainedHeader,
    segment: ChainedSegment,
    page: int,
    done: Seq<FixupModel>,
) -> Result<Seq<FixupModel>, MachOError> {
    let base = image.preferred_base + segment.segment_offset + page * segment.page_size;
    if u16_at(blob, segment.info + 22 + 2 * page) == 0xffff {
        Ok(done)
    } else {
        match page_starts(blob, segment, page) {
            Err(e) => Err(e),
            Ok(starts) => if base + segment.page_size > u64::MAX {
                Err(MachOError::ChainedOverflow)
            } else {
                starts_from(
                    image,
                    blob,
                    header,
                    segment.pointer_format,
                    base as u64,
                    (base + segment.page_size) as u64,
                    starts,
                    0,
                    done,
                )
            },
        }
    }
}

/// The fixups of the pages from `page` on, behind those of `done`.
pub open spec fn pages_from(
    image: ImageModel,
    blob: Seq<u8>,
    header: ChainedHeader,
    segment: ChainedSegment,
    page: int,
    done: Seq<FixupModel>,
) -> Result<Seq<FixupModel>, MachOError>
    decreases segment.page_count - page,
{
    if page >= segment.page_count {
        Ok(done)
    } else {
        match page_fixups(image, blob, header, segment, page, done) {
            Err(e) => Err(e),
            Ok(next) => pages_from(image, blob, header, segment, page + 1, next),
        }
    }
}

/// The chains of the segment `index`; nothing for a segment without chains or with pointers that
/// are not understood.
pub open spec fn chained_segment(blob: Seq<u8>, starts: int, index: int) -> Result<
    Option<ChainedSegment>,
    MachOError,
> {
    match field_u32(blob, starts + 4 + 4 * index) {
        Err(e) => Err(e),
        Ok(relative) => {
            let info = starts + relative;
            if relative == 0 {
                Ok(None)
            } else if info + 4 > blob.len() {
                Err(MachOError::TruncatedFixups)
            } else {
                let info_end = info + u32_at(blob, info);
                let page_count = u16_at(blob, info + 20);
                let format = u16_at(blob, info + 6);
                if u32_at(blob, info) < 22 || info_end > blob.len() {
                    Err(MachOError::ChainedTruncatedStarts)
                } else if format != 2 && format != 6 {
                    Ok(None)
                } else if u16_at(blob, info + 4) == 0 || info + 22 + 2 * page_count > info_end {
                    Err(MachOError::ChainedTruncatedPages)
                } else {
                    Ok(
                        Some(
                            ChainedSegment {
                                info: info as u64,
                                info_end: info_end as u64,
                                page_size: u16_at(blob, info + 4),
                                pointer_format: format,
                                segment_offset: u64_at(blob, info + 8),
                                page_count,
                            },
                        ),
                    )
                }
            }
        },
    }
}

/// The fixups of the segments from `index` on, behind those of `done`.
pub open spec fn segments_from(
    image: ImageModel,
    blob: Seq<u8>,
    header: ChainedHeader,
    index: int,
    done: Seq<FixupModel>,
) -> Result<Seq<FixupModel>, MachOError>
    decreases image.segments.len() - index,
{
    if index >= image.segments.len() {
        Ok(done)
    } else {
        match chained_segment(blob, header.starts as int, index) {
            Err(e) => Err(e),
            Ok(None) => segments_from(image, blob, header, index + 1, done),
            Ok(Some(segment)) => match pages_from(image, blob, header, segment, 0, done) {
                Err(e) => Err(e),
                Ok(next) => segments_from(image, blob, header, index + 1, next),
            },
        }
    }
}

/// The fixups of a chained-fixups blob.
pub open spec fn chained_fixups_of(image: ImageModel, blob: Seq<u8>) -> Result<
    Seq<FixupModel>,
    MachOError,
> {
    match chained_header(blob) {
        Err(e) => Err(e),
        Ok(header) => match field_u32(blob, header.starts as int) {
            Err(e) => Err(e),
            Ok(count) => if count != image.segments.len() {
                Err(MachOError::ChainedSegmentCount)
            } else {
                segments_from(image, blob, header, 0, Seq::empty())
            },
        },
    }
}

/// The four-byte field at `off`.
fn read_field(blob: &[u8], off: u64) -> (r: Result<u32, MachOError>)
    ensures
        r == field_u32(blob@, off as int),
{
    let len: u64 = blob.len() as u64;
    if off <= len && len - off >= 4 {
        Ok(get_u32(blob, off as usize))
    } else {
        Err(MachOError::TruncatedFixups)
    }
}

/// Read the header of a blob.
fn read_header(blob: &[u8]) -> (r: Result<ChainedHeader, MachOError>)
    ensures
        r == chained_header(blob@),
{
    let version: u32 = read_field(blob, 0)?;
    if version != 0 {
        return Err(MachOError::FixupsVersion(version));
    }
    if blob.len() < 24 {
        return Err(MachOError::TruncatedFixups);
    }
    Ok(
        ChainedHeader {
            starts: get_u32(blob, 4),
            imports: get_u32(blob, 8),
            symbols: get_u32(blob, 12),
            imports_count: get_u32(blob, 16),
            imports_format: get_u32(blob, 20),
        },
    )
}

/// Read the name of an imported symbol.
fn read_import(blob: &[u8], header: &ChainedHeader, ordinal: u32) -> (r: Option<String>)
    ensures
        match r {
            Some(s) => import_name(blob@, *header, ordinal as int) == Some(s@),
            None => import_name(blob@, *header, ordinal as int) is None,
        },
{
    if header.imports_format != 1 || ordinal >= header.imports_count {
        return None;
    }
    let entry: u64 = header.imports as u64 + 4 * (ordinal as u64);
    let raw: u32 = match read_field(blob, entry) {
        Ok(raw) => raw,
        Err(_) => return None,
    };
    let at: u64 = header.symbols as u64 + (raw / 512) as u64;
    if at > blob.len() as u64 {
        return None;
    }
    let rest: &[u8] = &blob[at as usize..blob.len()];
    match find_zero(rest) {
        Some(len) => Some(symbol_string(&rest[0..len])),
        None => None,
    }
}

/// What a chained pointer stands for.
fn read_target(
    image: &MachOImage,
    blob: &[u8],
    header: &ChainedHeader,
    format: u16,
    raw: u64,
) -> (r: Result<FixupTarget, MachOError>)
    ensures
        match r {
            Ok(t) => chained_target(image@, blob@, *header, format, raw) == Ok::<
                TargetModel,
                MachOError,
            >(t@),
            Err(e) => chained_target(image@, blob@, *header, format, raw) == Err::<
                TargetModel,
                MachOError,
            >(e),
        },
{
    if raw >= 0x8000_0000_0000_0000 {
        return Ok(FixupTarget::Bind(read_import(blob, header, (raw % 0x100_0000) as u32)));
    }
    let target: u64 = raw % 0x10_0000_0000 + (raw / 0x10_0000_0000 % 0x100)
        * 0x100_0000_0000_0000;
    if format == 2 {
        return Ok(FixupTarget::Rebase(target));
    }
    match image.preferred_base.checked_add(target) {
        Some(moved) => Ok(FixupTarget::Rebase(moved)),
        None => Err(MachOError::ChainedOverflow),
    }
}

/// Follow the chain at `location`.
fn read_chain(
    image: &MachOImage,
    blob: &[u8],
    header: &ChainedHeader,
    format: u16,
    page_end: u64,
    location: u64,
    fixups: &mut Vec<Fixup>,
) -> (r: Result<(), MachOError>)
    ensures
        match r {
            Ok(_) => chain_from(
                image@,
                blob@,
                *header,
                format,
                page_end,
                location,
                fixup_models(old(fixups)@),
            ) == Ok::<Seq<FixupModel>, MachOError>(fixup_models(final(fixups)@)),
            Err(e) => chain_from(
                image@,
                blob@,
                *header,
                format,
                page_end,
                location,
                fixup_models(old(fixups)@),
            ) == Err::<Seq<FixupModel>, MachOError>(e),
        },
{
    let ghost all = chain_from(
        image@,
        blob@,
        *header,
        format,
        page_end,
        location,
        fixup_models(fixups@),
    );
    let mut at: u64 = location;
    loop
        invariant
            all == chain_from(
                image@,
                blob@,
                *header,
                format,
                page_end,
                location,
                fixup_models(old(fixups)@),
            ),
            chain_from(image@, blob@, *header, format, page_end, at, fixup_models(fixups@)) == all,
        decreases u64::MAX - at,
    {
        if page_end < 8 || at > page_end - 8 {
            return Err(MachOError::ChainedEscapesPage);
        }
        let bytes: &[u8] = image.bytes_at(at, 8)?;
        let raw: u64 = get_u64(bytes, 0);
        let target: FixupTarget = read_target(image, blob, header, format, raw)?;
        let ghost before = fixups@;
        fixups.push(Fixup { location: at, target });
        assert(fixup_models(fixups@) =~= fixup_models(before).push(fixups@.last()@));
        let next: u64 = raw / 0x8_0000_0000_0000 % 0x1000;
        if next == 0 {
            return Ok(());
        }
        at =
        match at.checked_add(next * 4) {
            Some(moved) => moved,
            None => return Err(MachOError::ChainedOverflow),
        };
    }
}

/// Read the chain starts in the table behind the page starts.
fn read_multi_starts(blob: &[u8], table: u64, info_end: u64, index: u64) -> (r: Result<
    Vec<u16>,
    MachOError,
>)
    requires
        info_end <= blob@.len(),
        table <= 0x10_0000_0000,
        index <= 0x8000,
    ensures
        match r {
            Ok(v) => multi_starts(
                blob@,
                table as int,
                info_end as int,
                index as int,
                Seq::empty(),
            ) == Ok::<Seq<u16>, MachOError>(v@),
            Err(e) => multi_starts(
                blob@,
                table as int,
                info_end as int,
                index as int,
                Seq::empty(),
            ) == Err::<Seq<u16>, MachOError>(e),
        },
{
    assert(blob.len() <= usize::MAX);
    let mut starts: Vec<u16> = Vec::new();
    let mut at: u64 = table + 2 * index;
    let ghost mut i = index as int;
    loop
        invariant
            info_end <= blob@.len() <= usize::MAX,
            at == table + 2 * i,
            multi_starts(blob@, table as int, info_end as int, i, starts@) == multi_starts(
                blob@,
                table as int,
                info_end as int,
                index as int,
                Seq::empty(),
            ),
        decreases info_end - at,
    {
        if info_end < 2 || at > info_end - 2 {
            return Err(MachOError::ChainedTruncatedMulti);
        }
        let start: u16 = get_u16(blob, at as usize);
        starts.push(start % 0x4000);
        if start >= 0x8000 {
            return Ok(starts);
        }
        at = at + 2;
        proof {
            i = i + 1;
        }
    }
}

/// Follow the chains of a page.
fn read_starts(
    image: &MachOImage,
    blob: &[u8],
    header: &ChainedHeader,
    format: u16,
    page_base: u64,
    page_end: u64,
    starts: &[u16],
    fixups: &mut Vec<Fixup>,
) -> (r: Result<(), MachOError>)
    ensures
        match r {
            Ok(_) => starts_from(
                image@,
                blob@,
                *header,
                format,
                page_base,
                page_end,
                starts@,
                0,
                fixup_models(old(fixups)@),
            ) == Ok::<Seq<FixupModel>, MachOError>(fixup_models(final(fixups)@)),
            Err(e) => starts_from(
                image@,
                blob@,
                *header,
                format,
                page_base,
                page_end,
                starts@,
                0,
                fixup_models(old(fixups)@),
            ) == Err::<Seq<FixupModel>, MachOError>(e),
        },
{
    let mut i: usize = 0;
    while i < starts.len()
        invariant
            i <= starts@.len(),
            starts_from(
                image@,
                blob@,
                *header,
                format,
                page_base,
                page_end,
                starts@,
                i as int,
                fixup_models(fixups@),
            ) == starts_from(
                image@,
                blob@,
                *header,
                format,
                page_base,
                page_end,
                starts@,
                0,
                fixup_models(old(fixups)@),
            ),
        decreases starts@.len() - i,
    {
        let location: u64 = match page_base.checked_add(starts[i] as u64) {
            Some(location) => location,
            None => return Err(MachOError::ChainedOverflow),
        };
        read_chain(image, blob, header, format, page_end, location, fixups)?;
        i = i + 1;
    }
    Ok(())
}

/// Whether the chains of a segment lie inside the blob.
spec fn segment_lies(blob: Seq<u8>, segment: ChainedSegment) -> bool {
    &&& segment.info + 22 + 2 * segment.page_count <= segment.info_end <= blob.len()
    &&& segment.info_end <= 0x4_0000_0000
}

/// Follow the chains of the page `page`.
fn read_page(
    image: &MachOImage,
    blob: &[u8],
    header: &ChainedHeader,
    segment: &ChainedSegment,
    page: u16,
    fixups: &mut Vec<Fixup>,
) -> (r: Result<(), MachOError>)
    requires
        segment_lies(blob@, *segment),
        page < segment.page_count,
    ensures
        match r {
            Ok(_) => page_fixups(
                image@,
                blob@,
                *header,
                *segment,
                page as int,
                fixup_models(old(fixups)@),
            ) == Ok::<Seq<FixupModel>, MachOError>(fixup_models(final(fixups)@)),
            Err(e) => page_fixups(
                image@,
                blob@,
                *header,
                *segment,
                page as int,
                fixup_models(old(fixups)@),
            ) == Err::<Seq<FixupModel>, MachOError>(e),
        },
{
    assert(blob.len() <= usize::MAX);
    let start: u16 = get_u16(blob, (segment.info + 22 + 2 * (page as u64)) as usize);
    if start == 0xffff {
        return Ok(());
    }
    let starts: Vec<u16> = if start < 0x8000 {
        vec![start]
    } else {
        read_multi_starts(
            blob,
            segment.info + 22 + 2 * (segment.page_count as u64),
            segment.info_end,
            (start % 0x8000) as u64,
        )?
    };
    assert(start < 0x8000 ==> starts@ =~= seq![start]);
    assert(page_starts(blob@, *segment, page as int) == Ok::<Seq<u16>, MachOError>(starts@));
    assert(page * segment.page_size <= 0xffff * 0xffff) by (nonlinear_arith)
        requires
            page <= 0xffff,
            segment.page_size <= 0xffff,
    ;
    let span: u64 = page as u64 * segment.page_size as u64;
    let page_base: u64 = match image.preferred_base.checked_add(segment.segment_offset) {
        Some(base) => match base.checked_add(span) {
            Some(base) => base,
            None => return Err(MachOError::ChainedOverflow),
        },
        None => return Err(MachOError::ChainedOverflow),
    };
    let page_end: u64 = match page_base.checked_add(segment.page_size as u64) {
        Some(end) => end,
        None => return Err(MachOError::ChainedOverflow),
    };
    read_starts(
        image,
        blob,
        header,
        segment.pointer_format,
        page_base,
        page_end,
        &starts,
        fixups,
    )
}

/// Read where the chains of the segment `index` are.
fn read_segment(blob: &[u8], starts: u32, index: u32) -> (r: Result<
    Option<ChainedSegment>,
    MachOError,
>)
    ensures
        r == chained_segment(blob@, starts as int, index as int),
        r matches Ok(Some(segment)) ==> segment_lies(blob@, segment),
{
    let relative: u32 = read_field(blob, starts as u64 + 4 + 4 * (index as u64))?;
    if relative == 0 {
        return Ok(None);
    }
    let info: u64 = starts as u64 + relative as u64;
    let size: u32 = read_field(blob, info)?;
    let info_end: u64 = info + size as u64;
    if size < 22 || info_end > blob.len() as u64 {
        return Err(MachOError::ChainedTruncatedStarts);
    }
    let base: usize = info as usize;
    let page_size: u16 = get_u16(blob, base + 4);
    let pointer_format: u16 = get_u16(blob, base + 6);
    if pointer_format != 2 && pointer_format != 6 {
        return Ok(None);
    }
    let segment_offset: u64 = get_u64(blob, base + 8);
    let page_count: u16 = get_u16(blob, base + 20);
    if page_size == 0 || info + 22 + 2 * (page_count as u64) > info_end {
        return Err(MachOError::ChainedTruncatedPages);
    }
    Ok(
        Some(
            ChainedSegment {
                info,
                info_end,
                page_size,
                pointer_format,
                segment_offset,
                page_count,
            },
        ),
    )
}

/// Follow the chains of a segment.
fn read_pages(
    image: &MachOImage,
    blob: &[u8],
    header: &ChainedHeader,
    segment: &ChainedSegment,
    fixups: &mut Vec<Fixup>,
) -> (r: Result<(), MachOError>)
    requires
        segment_lies(blob@, *segment),
    ensures
        match r {
            Ok(_) => pages_from(
                image@,
                blob@,
                *header,
                *segment,
                0,
                fixup_models(old(fixups)@),
            ) == Ok::<Seq<FixupModel>, MachOError>(fixup_models(final(fixups)@)),
            Err(e) => pages_from(
                image@,
                blob@,
                *header,
                *segment,
                0,
                fixup_models(old(fixups)@),
            ) == Err::<Seq<FixupModel>, MachOError>(e),
        },
{
    let mut page: u16 = 0;
    while page < segment.page_count
        invariant
            page <= segment.page_count,
            segment_lies(blob@, *segment),
            pages_from(
                image@,
                blob@,
                *header,
                *segment,
                page as int,
                fixup_models(fixups@),
            ) == pages_from(image@, blob@, *header, *segment, 0, fixup_models(old(fixups)@)),
        decreases segment.page_count - page,
    {
        read_page(image, blob, header, segment, page, fixups)?;
        page = page + 1;
    }
    Ok(())
}

/// The fixups of a chained-fixups blob.
pub fn read_chained_fixups(image: &MachOImage, blob: &[u8]) -> (r: Result<Vec<Fixup>, MachOError>)
    ensures
        match r {
            Ok(v) => chained_fixups_of(image@, blob@) == Ok::<Seq<FixupModel>, MachOError>(
                fixup_models(v@),
            ),
            Err(e) => chained_fixups_of(image@, blob@) == Err::<Seq<FixupModel>, MachOError>(e),
        },
{
    let header: ChainedHeader = read_header(blob)?;
    let count: u32 = read_field(blob, header.starts as u64)?;
    if count as usize != image.segments.len() {
        return Err(MachOError::ChainedSegmentCount);
    }
    let mut fixups: Vec<Fixup> = Vec::new();
    assert(fixup_models(fixups@) =~= Seq::<FixupModel>::empty());
    let mut index: u32 = 0;
    while index < count
        invariant
            index <= count,
            count == image@.segments.len(),
            segments_from(image@, blob@, header, index as int, fixup_models(fixups@))
                == segments_from(image@, blob@, header, 0, Seq::empty()),
            segments_from(image@, blob@, header, 0, Seq::empty()) == chained_fixups_of(
                image@,
                blob@,
            ),
        decreases count - index,
    {
        match read_segment(blob, header.starts, index)? {
            Some(segment) => {
                read_pages(image, blob, &header, &segment, &mut fixups)?;
            },
            None => {},
        }
        index = index + 1;
    }
    Ok(fixups)
}

} // verus!
