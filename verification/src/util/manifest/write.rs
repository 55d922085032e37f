//! Whole manifests.

use vstd::prelude::*;
use crate::bytes::{le32, le64, push_bytes, resized};
use super::format::{
    compression_code, push_header, symbol_models, ManifestCompression, ManifestError,
    ManifestHeader, ManifestInput, ManifestOptions, SymbolModel, MAGIC, VERSION, ZSTD_LEVEL,
};
use super::embedded::manifest_in;
use super::laws::{law_written_manifest_is_read, names_are_text};
use super::payload::{build_manifest_payload, payload_of};

verus! {

/// What `zstd::stream::encode_all` makes of `data`.
pub uninterp spec fn zstd_encoded(data: Seq<u8>, level: i32) -> Option<Seq<u8>>;

/// What `zstd::stream::decode_all` makes of `data`.
pub uninterp spec fn zstd_decoded(data: Seq<u8>) -> Option<Seq<u8>>;

/// `zstd::stream::encode_all`: the compressed bytes, under the name of the result. Decompressing
/// them gives the bytes back.
#[verifier::external_body]
pub(crate) fn zstd_encode(data: &[u8], level: i32) -> (r: Option<Vec<u8>>)
    ensures
        match r {
            Some(v) => zstd_encoded(data@, level) == Some(v@) && zstd_decoded(v@) == Some(data@),
            None => zstd_encoded(data@, level) is None,
        },
{
    zstd::stream::encode_all(data, level).ok()
}

/// `zstd::stream::decode_all`: the decompressed bytes, under the name of the result; nothing where
/// the bytes are no zstd stream.
#[verifier::external_body]
pub(crate) fn zstd_decode(data: &[u8]) -> (r: Option<Vec<u8>>)
    ensures
        match r {
            Some(v) => zstd_decoded(data@) == Some(v@),
            None => zstd_decoded(data@) is None,
        },
{
    zstd::stream::decode_all(data).ok()
}

/// Bytes of the build id that a header holds.
pub open spec fn build_id_len(build_id: Seq<u8>) -> int {
    if build_id.len() > 32 {
        32
    } else {
        build_id.len() as int
    }
}

/// The header and the stored payload of a manifest.
pub open spec fn framed(
    build_id: Seq<u8>,
    compression: ManifestCompression,
    uncompressed_len: int,
    stored: Seq<u8>,
    count: int,
) -> Seq<u8> {
    MAGIC@ + le32(VERSION) + le32(compression_code(compression)) + le64(uncompressed_len as u64)
        + le64(stored.len() as u64) + le32(build_id_len(build_id) as u32) + resized(build_id, 32)
        + le32(count as u32) + stored
}

/// The stored form of a payload.
pub open spec fn stored_payload(payload: Seq<u8>, compression: ManifestCompression) -> Option<
    Seq<u8>,
> {
    match compression {
        ManifestCompression::Uncompressed => Some(payload),
        ManifestCompression::Zstd => zstd_encoded(payload, ZSTD_LEVEL),
    }
}

/// The manifest of the symbols and the number of its entries.
pub open spec fn manifest_of(
    build_id: Seq<u8>,
    symbols: Seq<SymbolModel>,
    compression: ManifestCompression,
) -> Result<(Seq<u8>, int), ManifestError> {
    match payload_of(symbols) {
        Err(e) => Err(e),
        Ok((payload, count)) => if count > u32::MAX {
            Err(ManifestError::EntryCountTooLarge)
        } else {
            match stored_payload(payload, compression) {
                None => Err(ManifestError::CompressFailed),
                Some(stored) => Ok(
                    (framed(build_id, compression, payload.len() as int, stored, count), count),
                ),
            }
        },
    }
}

/// Whether a reader gets the payload and the entry count of the symbols back from `out`; owed where
/// the build id is a UUID and the names are text.
pub open spec fn is_read_back(out: Seq<u8>, build_id: Seq<u8>, symbols: Seq<SymbolModel>) -> bool {
    build_id.len() == 16 && names_are_text(symbols) ==> manifest_in(out, build_id) == payload_of(
        symbols,
    )
}

/// The build id as a header holds it: cut or padded to 32 bytes, and how many of them count.
fn build_id_field(build_id: &[u8]) -> (r: ([u8; 32], u32))
    ensures
        r.0@ == resized(build_id@, 32),
        r.1 == build_id_len(build_id@),
{
    let len: usize = if build_id.len() > 32 {
        32
    } else {
        build_id.len()
    };
    let mut field: [u8; 32] = [0u8;32];
    let mut i: usize = 0;
    while i < len
        invariant
            i <= len <= 32,
            len <= build_id@.len(),
            forall|j: int| 0 <= j < i ==> field@[j] == build_id@[j],
            forall|j: int| i <= j < 32 ==> field@[j] == 0,
        decreases len - i,
    {
        field[i] = build_id[i];
        i = i + 1;
    }
    assert(field@ =~= resized(build_id@, 32));
    (field, len as u32)
}

/// Put a header in front of a stored payload.
pub fn frame_manifest(
    build_id: &[u8],
    compression: ManifestCompression,
    uncompressed_len: usize,
    stored: &[u8],
    entry_count: u32,
) -> (out: Vec<u8>)
    ensures
        out@ == framed(
            build_id@,
            compression,
            uncompressed_len as int,
            stored@,
            entry_count as int,
        ),
{
    let (field, len) = build_id_field(build_id);
    let header = ManifestHeader {
        magic: MAGIC,
        version: VERSION,
        compression: compression.code(),
        uncompressed_len: uncompressed_len as u64,
        compressed_len: stored.len() as u64,
        build_id_len: len,
        build_id: field,
        entry_count,
    };
    let mut out: Vec<u8> = Vec::new();
    push_header(&mut out, &header);
    push_bytes(&mut out, stored);
    assert(out@ =~= framed(
        build_id@,
        compression,
        uncompressed_len as int,
        stored@,
        entry_count as int,
    ));
    out
}

/// Serialize a manifest using the default compression.
/// Returns the serialized bytes and the deduplicated entry count.
pub fn build_manifest(input: &ManifestInput) -> (r: Result<(Vec<u8>, usize), ManifestError>)
    ensures
        match r {
            Ok((out, count)) => manifest_of(
                input.build_id@,
                symbol_models(input.symbols@),
                ManifestCompression::Zstd,
            ) == Ok::<(Seq<u8>, int), ManifestError>((out@, count as int)) && is_read_back(
                out@,
                input.build_id@,
                symbol_models(input.symbols@),
            ),
            Err(e) => manifest_of(
                input.build_id@,
                symbol_models(input.symbols@),
                ManifestCompression::Zstd,
            ) == Err::<(Seq<u8>, int), ManifestError>(e),
        },
{
    build_manifest_with_options(input, ManifestOptions::default())
}

/// Serialize a manifest.
/// Returns the serialized bytes and the deduplicated entry count.
pub fn build_manifest_with_options(input: &ManifestInput, options: ManifestOptions) -> (r: Result<
    (Vec<u8>, usize),
    ManifestError,
>)
    ensures
        match r {
            Ok((out, count)) => manifest_of(
                input.build_id@,
                symbol_models(input.symbols@),
                options.compression,
            ) == Ok::<(Seq<u8>, int), ManifestError>((out@, count as int)) && is_read_back(
                out@,
                input.build_id@,
                symbol_models(input.symbols@),
            ),
            Err(e) => manifest_of(
                input.build_id@,
                symbol_models(input.symbols@),
                options.compression,
            ) == Err::<(Seq<u8>, int), ManifestError>(e),
        },
{
    let (payload, entries) = build_manifest_payload(input)?;
    if entries as u64 > u32::MAX as u64 {
        return Err(ManifestError::EntryCountTooLarge);
    }
    let uncompressed_len: usize = payload.len();
    let ghost symbols = symbol_models(input.symbols@);
    let stored: Vec<u8> = match options.compression {
        ManifestCompression::Uncompressed => payload,
        ManifestCompression::Zstd => match zstd_encode(&payload, ZSTD_LEVEL) {
            Some(stored) => stored,
            None => return Err(ManifestError::CompressFailed),
        },
    };
    let out: Vec<u8> = frame_manifest(
        &input.build_id,
        options.compression,
        uncompressed_len,
        &stored,
        entries as u32,
    );
    proof {
        assert(stored.len() <= usize::MAX);
        if input.build_id@.len() == 16 && names_are_text(symbols) {
            law_written_manifest_is_read(input.build_id@, symbols, options.compression);
        }
    }
    Ok((out, entries))
}

} // verus!
