//! Embedding into an image of any format.

use vstd::prelude::*;
use crate::bytes::{
    copy_bytes, group_field_len, le64, lemma_overlay_apart, lemma_overlay_same, lemma_u64_at_le,
    overlay, u64_at,
};
use crate::util::macho::format::VM_PROT_READ;
use crate::util::macho::insert::{
    segment_models, SectionModel, SectionSpec, SegmentModel, SegmentSpec,
};
use crate::util::macho::laws::law_inserted_data_is_placed;
use crate::util::macho::relayout::{insert_segments, with_segments};
use crate::util::objfile::{
    file_format, file_kind, file_section_range, read_format, read_kind, read_section_range,
    ImageKind,
};
use super::descriptor::{patch_descriptor, patched, EmbedError};
use super::elf::{elf_embed, elf_embedded};
use super::pe::{pe_embed, pe_embedded};

verus! {

/// The segment that holds the blob.
pub open spec fn symdb_segment(blob: Seq<u8>) -> SegmentModel {
    SegmentModel {
        name: "__SYMDB"@,
        data: blob,
        max_prot: VM_PROT_READ,
        init_prot: VM_PROT_READ,
        sections: seq![
            SectionModel {
                name: "__symdb"@,
                offset: 0,
                size: blob.len() as u64,
                align: 3,
                flags: 0,
            },
        ],
    }
}

/// The Mach-O image with the blob embedded, where its descriptor stands at the file offset
/// `descriptor`.
pub open spec fn macho_with_blob(data: Seq<u8>, blob: Seq<u8>, descriptor: u64) -> Result<
    Seq<u8>,
    EmbedError,
> {
    match with_segments(data, seq![symdb_segment(blob)]) {
        Err(e) => Err(EmbedError::MachO(e)),
        Ok((out, places)) => patched(
            out,
            descriptor as int,
            places[0].vmaddr,
            blob.len() as u64,
        ),
    }
}

/// The file offset of the descriptor of a Mach-O image, from the file ranges of its `__symdb` and
/// `__symdbh` sections.
pub open spec fn macho_descriptor(
    embedded: Option<Option<(u64, u64)>>,
    descriptor: Option<Option<(u64, u64)>>,
) -> Result<u64, EmbedError> {
    match (embedded, descriptor) {
        (Some(_), _) => Err(EmbedError::AlreadyEmbedded),
        (None, None) => Err(EmbedError::NoDescriptor),
        (None, Some(None)) => Err(EmbedError::DescriptorNotFileBacked),
        (None, Some(Some((offset, size)))) => if size < 24 {
            Err(EmbedError::DescriptorTooSmall)
        } else if offset > usize::MAX {
            Err(EmbedError::DescriptorOffsetTooLarge)
        } else {
            Ok(offset)
        },
    }
}

/// The Mach-O image with the blob embedded.
pub open spec fn macho_embedded(data: Seq<u8>, blob: Seq<u8>) -> Result<Seq<u8>, EmbedError> {
    if file_format(data) is None {
        Err(EmbedError::ParseFailed)
    } else {
        match macho_descriptor(
            file_section_range(data, "__symdb"@),
            file_section_range(data, "__symdbh"@),
        ) {
            Err(e) => Err(e),
            Ok(offset) => macho_with_blob(data, blob, offset),
        }
    }
}

/// The image with the blob embedded.
pub open spec fn embedded(data: Seq<u8>, blob: Seq<u8>) -> Result<Seq<u8>, EmbedError> {
    match file_kind(data) {
        None => Err(EmbedError::ParseFailed),
        Some(ImageKind::Pe64) => pe_embedded(data, blob),
        Some(ImageKind::Elf64) => elf_embedded(data, blob),
        Some(ImageKind::MachO64) => macho_embedded(data, blob),
        Some(_) => Err(EmbedError::UnsupportedFormat),
    }
}

/// Find the file offset of the descriptor of a Mach-O image.
pub fn find_macho_descriptor(
    embedded: Option<Option<(u64, u64)>>,
    descriptor: Option<Option<(u64, u64)>>,
) -> (r: Result<u64, EmbedError>)
    ensures
        r == macho_descriptor(embedded, descriptor),
{
    if embedded.is_some() {
        return Err(EmbedError::AlreadyEmbedded);
    }
    match descriptor {
        None => Err(EmbedError::NoDescriptor),
        Some(None) => Err(EmbedError::DescriptorNotFileBacked),
        Some(Some((offset, size))) => if size < 24 {
            Err(EmbedError::DescriptorTooSmall)
        } else if offset > usize::MAX as u64 {
            Err(EmbedError::DescriptorOffsetTooLarge)
        } else {
            Ok(offset)
        },
    }
}

/// Insert the blob as a segment and patch the descriptor at `descriptor`.
pub fn insert_blob(data: Vec<u8>, blob: &[u8], descriptor: u64) -> (r: Result<Vec<u8>, EmbedError>)
    ensures
        match r {
            Ok(out) => macho_with_blob(data@, blob@, descriptor) == Ok::<Seq<u8>, EmbedError>(
                out@,
            ),
            Err(e) => macho_with_blob(data@, blob@, descriptor) == Err::<Seq<u8>, EmbedError>(e),
        },
{
    let mut sections: Vec<SectionSpec> = Vec::new();
    sections.push(
        SectionSpec { name: "__symdb", offset: 0, size: blob.len() as u64, align: 3, flags: 0 },
    );
    let mut specs: Vec<SegmentSpec> = Vec::new();
    specs.push(
        SegmentSpec {
            name: "__SYMDB".to_owned(),
            data: copy_bytes(blob),
            max_prot: VM_PROT_READ,
            init_prot: VM_PROT_READ,
            sections,
        },
    );
    proof {
        let model = symdb_segment(blob@);
        assert(specs@[0]@.sections =~= model.sections);
        assert(segment_models(specs@) =~= seq![model]);
    }
    match insert_segments(data, &specs) {
        Err(e) => Err(EmbedError::MachO(e)),
        Ok(inserted) => {
            proof {
                crate::util::macho::laws::lemma_places_len(data@, segment_models(specs@));
            }
            let mut out: Vec<u8> = inserted.data;
            let vmaddr: u64 = inserted.segments[0].vmaddr;
            patch_descriptor(&mut out, descriptor, vmaddr, blob.len() as u64)?;
            Ok(out)
        },
    }
}

/// Mach-O: insert a `__SYMDB` segment where `__LINKEDIT` starts (`__LINKEDIT` must stay the
/// last segment), shift every linkedit file offset, and grow the chained fixups blob to
/// cover the added segment. Needs load-command headroom (link with `-headerpad`). Any
/// existing code signature is invalidated; re-sign afterwards.
pub fn macho_embed(data: Vec<u8>, blob: &[u8]) -> (r: Result<Vec<u8>, EmbedError>)
    ensures
        match r {
            Ok(out) => macho_embedded(data@, blob@) == Ok::<Seq<u8>, EmbedError>(out@),
            Err(e) => macho_embedded(data@, blob@) == Err::<Seq<u8>, EmbedError>(e),
        },
{
    if read_format(&data).is_none() {
        return Err(EmbedError::ParseFailed);
    }
    let descriptor: u64 = find_macho_descriptor(
        read_section_range(&data, "__symdb"),
        read_section_range(&data, "__symdbh"),
    )?;
    insert_blob(data, blob, descriptor)
}

/// The image with the blob embedded and its descriptor patched.
pub fn embed(data: Vec<u8>, blob: &[u8]) -> (r: Result<Vec<u8>, EmbedError>)
    ensures
        match r {
            Ok(out) => embedded(data@, blob@) == Ok::<Seq<u8>, EmbedError>(out@),
            Err(e) => embedded(data@, blob@) == Err::<Seq<u8>, EmbedError>(e),
        },
{
    match read_kind(&data) {
        None => Err(EmbedError::ParseFailed),
        Some(ImageKind::Pe64) => pe_embed(data, blob),
        Some(ImageKind::Elf64) => elf_embed(data, blob),
        Some(ImageKind::MachO64) => macho_embed(data, blob),
        Some(_) => Err(EmbedError::UnsupportedFormat),
    }
}

/// The descriptor of a Mach-O image holds the address and the size of the segment that was
/// inserted, and the blob stands in the new file where that segment's contents start.
///
/// A descriptor that reaches into the contents of the new segment is left out: it is patched
/// there, in the blob itself.
pub proof fn law_macho_descriptor_finds_blob(data: Seq<u8>, blob: Seq<u8>, descriptor: u64)
    requires
        blob.len() <= u64::MAX,
        macho_with_blob(data, blob, descriptor).is_ok(),
        ({
            let at = with_segments(data, seq![symdb_segment(blob)])->Ok_0.1[0].fileoff;
            descriptor + 24 <= at || at + blob.len() <= descriptor
        }),
    ensures
        ({
            let out = macho_with_blob(data, blob, descriptor)->Ok_0;
            let place = with_segments(data, seq![symdb_segment(blob)])->Ok_0.1[0];
            &&& u64_at(out, descriptor + 8) == place.vmaddr
            &&& u64_at(out, descriptor + 16) == blob.len()
            &&& place.fileoff + blob.len() <= out.len()
            &&& out.subrange(place.fileoff as int, place.fileoff + blob.len()) == blob
        }),
{
    broadcast use group_field_len;

    let specs = seq![symdb_segment(blob)];
    let (inserted, places) = with_segments(data, specs)->Ok_0;
    law_inserted_data_is_placed(data, specs, 0);
    let at = places[0].fileoff as int;
    let end = at + blob.len();
    let size = blob.len() as u64;
    let d = descriptor as int;
    let mid = overlay(inserted, d + 8, le64(places[0].vmaddr));
    let out = overlay(mid, d + 16, le64(size));
    lemma_overlay_same(mid, d + 16, le64(size));
    lemma_u64_at_le(out, d + 16, size);
    lemma_overlay_apart(mid, d + 16, le64(size), d + 8, d + 16);
    lemma_overlay_same(inserted, d + 8, le64(places[0].vmaddr));
    lemma_u64_at_le(out, d + 8, places[0].vmaddr);
    lemma_overlay_apart(mid, d + 16, le64(size), at, end);
    lemma_overlay_apart(inserted, d + 8, le64(places[0].vmaddr), at, end);
}

} // verus!
