//! Types, flags and field encodings of the symbol manifest.

use vstd::prelude::*;
use vstd::utf8::*;
use crate::bytes::{
    get_u32, get_u64, group_field_len, le32, le64, lemma_u32_at_le, lemma_u64_at_le, push_bytes,
    push_u32, push_u64, u32_at, u64_at,
};
use crate::order::Ranked;

verus! {

/// `SYMGEN` and two zero bytes.
pub const MAGIC: [u8; 8] = [0x53, 0x59, 0x4d, 0x47, 0x45, 0x4e, 0, 0];

pub const VERSION: u32 = 2;

pub const ZSTD_LEVEL: i32 = 10;

pub const FLAG_CODE: u32 = 1;

pub const FLAG_DATA: u32 = 2;

/// Not externally visible in the linked image (PDB module symbol / local symtab entry):
/// hookable via the manifest, never linkable.
pub const FLAG_LOCAL: u32 = 4;

/// Multiple names resolved to this RVA (ICF fold or alias): a hook here intercepts
/// every folded function.
pub const FLAG_MULTI_NAME: u32 = 8;

/// This name maps to more than one RVA (internal-linkage statics with the same name in
/// different TUs). Every RVA is present; a by-name lookup must treat it as ambiguous.
pub const FLAG_DUP_NAME: u32 = 16;

/// This function was inlined into at least one caller in this build (PDB inlinee
/// records): an entry hook on it only intercepts the calls that were not inlined.
pub const FLAG_INLINE_SITES: u32 = 32;

/// A demangled display-name alias generated alongside the real (mangled) entry, so
/// `Class::method` resolves on every platform. Excluded from MULTI_NAME accounting,
/// and dropped when it collides with a real symbol's name at a different address.
pub const FLAG_DISPLAY: u32 = 64;

/// Why a manifest could not be written or read.
#[derive(Clone, Copy, Debug, PartialEq, Eq, Structural)]
pub enum ManifestError {
    ParseFailed,
    NotMachO,
    NoUuid,
    NoSection,
    SectionUnreadable,
    Truncated,
    WrongMagic,
    UuidMismatch,
    TooLarge,
    PayloadTruncated,
    LengthMismatch,
    DecompressFailed,
    DecompressedLength { found: usize, expected: usize },
    UnsupportedCompression(u32),
    EntryTableOverflow,
    EntryTableTruncated,
    NotSorted,
    NameOutOfBounds,
    NameUnterminated,
    NameNotUtf8,
    StringTableTooLarge,
    EntryCountTooLarge,
    CompressFailed,
}

/// Manifest payload compression stored in [`ManifestHeader::compression`].
#[derive(Clone, Copy, Debug, PartialEq, Eq, Structural)]
pub enum ManifestCompression {
    Uncompressed,
    Zstd,
}

/// The number that stands for a compression.
pub open spec fn compression_code(compression: ManifestCompression) -> u32 {
    match compression {
        ManifestCompression::Uncompressed => 0,
        ManifestCompression::Zstd => 1,
    }
}

impl ManifestCompression {
    /// The number that stands for the compression in a header.
    pub fn code(self) -> (r: u32)
        ensures
            r == compression_code(self),
    {
        match self {
            ManifestCompression::Uncompressed => 0,
            ManifestCompression::Zstd => 1,
        }
    }

    /// The name of the compression.
    pub fn name(self) -> (r: &'static str)
        ensures
            r@ == (match self {
                ManifestCompression::Uncompressed => "none"@,
                ManifestCompression::Zstd => "zstd"@,
            }),
    {
        match self {
            ManifestCompression::Uncompressed => "none",
            ManifestCompression::Zstd => "zstd",
        }
    }
}

/// How a manifest is written.
#[derive(Clone, Copy, Debug, PartialEq, Eq, Structural)]
pub struct ManifestOptions {
    pub compression: ManifestCompression,
}

impl Default for ManifestOptions {
    fn default() -> (r: Self)
        ensures
            r.compression == ManifestCompression::Zstd,
    {
        ManifestOptions { compression: ManifestCompression::Zstd }
    }
}

/// Manifest header.
#[derive(Clone, Copy, Debug, PartialEq, Eq)]
pub struct ManifestHeader {
    pub magic: [u8; 8],
    pub version: u32,
    pub compression: u32,
    pub uncompressed_len: u64,
    pub compressed_len: u64,
    pub build_id_len: u32,
    pub build_id: [u8; 32],
    pub entry_count: u32,
}

/// A single symbol entry.
#[derive(Clone, Copy, Debug, PartialEq, Eq, Structural)]
pub struct ManifestEntry {
    /// FNV-1a 64-bit hash of the name.
    pub hash: u64,
    /// Address relative to the image base.
    pub rva: u64,
    /// Offset of the NUL-terminated name in the string table.
    pub name_off: u32,
    /// FLAG_* bitfield.
    pub flags: u32,
}

/// The hash after one more byte.
pub open spec fn fnv_step(hash: u64, byte: u8) -> u64 {
    (hash ^ (byte as u64)).wrapping_mul(0x100_0000_01b3)
}

/// The FNV-1a 64-bit hash of a byte sequence.
pub open spec fn fnv(bytes: Seq<u8>) -> u64
    decreases bytes.len(),
{
    if bytes.len() == 0 {
        0xcbf2_9ce4_8422_2325
    } else {
        fnv_step(fnv(bytes.drop_last()), bytes.last())
    }
}

/// FNV-1a 64-bit hash; the loader hashes lookup names the same way.
pub fn fnv1a64(bytes: &[u8]) -> (r: u64)
    ensures
        r == fnv(bytes@),
{
    let mut hash: u64 = 0xcbf2_9ce4_8422_2325;
    let mut i: usize = 0;
    while i < bytes.len()
        invariant
            i <= bytes@.len(),
            hash == fnv(bytes@.subrange(0, i as int)),
        decreases bytes@.len() - i,
    {
        assert(bytes@.subrange(0, i + 1).drop_last() =~= bytes@.subrange(0, i as int));
        hash = (hash ^ (bytes[i] as u64)).wrapping_mul(0x100_0000_01b3);
        i = i + 1;
    }
    assert(bytes@.subrange(0, bytes@.len() as int) =~= bytes@);
    hash
}

/// A symbol to list.
pub struct ManifestSymbol {
    pub name: String,
    pub rva: u64,
    pub flags: u32,
}

/// What a manifest is made of.
pub struct ManifestInput {
    pub build_id: Vec<u8>,
    pub symbols: Vec<ManifestSymbol>,
}

/// A symbol with its name as bytes.
pub struct SymbolModel {
    pub name: Seq<u8>,
    pub rva: u64,
    pub flags: u32,
}

impl View for ManifestSymbol {
    type V = SymbolModel;

    open spec fn view(&self) -> SymbolModel {
        SymbolModel { name: encode_utf8(self.name@), rva: self.rva, flags: self.flags }
    }
}

/// The symbols of a list, with their names as bytes.
pub open spec fn symbol_models(symbols: Seq<ManifestSymbol>) -> Seq<SymbolModel> {
    Seq::new(symbols.len(), |i: int| symbols[i]@)
}

/// The bytes of an entry.
pub open spec fn entry_bytes(entry: ManifestEntry) -> Seq<u8> {
    le64(entry.hash) + le64(entry.rva) + le32(entry.name_off) + le32(entry.flags)
}

/// The entry whose bytes stand at `off`.
pub open spec fn entry_at(s: Seq<u8>, off: int) -> ManifestEntry {
    ManifestEntry {
        hash: u64_at(s, off),
        rva: u64_at(s, off + 8),
        name_off: u32_at(s, off + 16),
        flags: u32_at(s, off + 20),
    }
}

/// Reading an entry gives back the entry whose bytes stand there.
pub proof fn lemma_entry_at(s: Seq<u8>, off: int, entry: ManifestEntry)
    requires
        0 <= off,
        off + 24 <= s.len(),
        s.subrange(off, off + 24) == entry_bytes(entry),
    ensures
        entry_at(s, off) == entry,
{
    broadcast use group_field_len;

    let b = entry_bytes(entry);
    assert(s.subrange(off, off + 8) =~= b.subrange(0, 8));
    assert(b.subrange(0, 8) =~= le64(entry.hash));
    lemma_u64_at_le(s, off, entry.hash);
    assert(s.subrange(off + 8, off + 16) =~= b.subrange(8, 16));
    assert(b.subrange(8, 16) =~= le64(entry.rva));
    lemma_u64_at_le(s, off + 8, entry.rva);
    assert(s.subrange(off + 16, off + 20) =~= b.subrange(16, 20));
    assert(b.subrange(16, 20) =~= le32(entry.name_off));
    lemma_u32_at_le(s, off + 16, entry.name_off);
    assert(s.subrange(off + 20, off + 24) =~= b.subrange(20, 24));
    assert(b.subrange(20, 24) =~= le32(entry.flags));
    lemma_u32_at_le(s, off + 20, entry.flags);
}

impl ManifestEntry {
    /// The entry at the front of `bytes` and what follows it.
    pub fn read_from_prefix(bytes: &[u8]) -> (r: Option<(ManifestEntry, &[u8])>)
        ensures
            match r {
                Some((entry, rest)) => bytes@.len() >= 24 && entry == entry_at(bytes@, 0) && rest@
                    == bytes@.subrange(24, bytes@.len() as int),
                None => bytes@.len() < 24,
            },
    {
        if bytes.len() < 24 {
            return None;
        }
        Some((read_entry(bytes, 0), &bytes[24..bytes.len()]))
    }
}

/// Read the entry at `off`.
pub fn read_entry(bytes: &[u8], off: usize) -> (r: ManifestEntry)
    requires
        off + 24 <= bytes@.len(),
    ensures
        r == entry_at(bytes@, off as int),
{
    assert(bytes.len() <= usize::MAX);
    ManifestEntry {
        hash: get_u64(bytes, off),
        rva: get_u64(bytes, off + 8),
        name_off: get_u32(bytes, off + 16),
        flags: get_u32(bytes, off + 20),
    }
}

/// Append the bytes of an entry.
pub fn push_entry(out: &mut Vec<u8>, entry: &ManifestEntry)
    ensures
        final(out)@ == old(out)@ + entry_bytes(*entry),
{
    push_u64(out, entry.hash);
    push_u64(out, entry.rva);
    push_u32(out, entry.name_off);
    push_u32(out, entry.flags);
    assert(out@ =~= old(out)@ + entry_bytes(*entry));
}

/// The order of entries: by hash, then by name offset, then by address. Entries of one manifest
/// never agree in all three; the flags only complete the order.
pub open spec fn entry_lt(a: ManifestEntry, b: ManifestEntry) -> bool {
    ||| a.hash < b.hash
    ||| a.hash == b.hash && a.name_off < b.name_off
    ||| a.hash == b.hash && a.name_off == b.name_off && a.rva < b.rva
    ||| a.hash == b.hash && a.name_off == b.name_off && a.rva == b.rva && a.flags < b.flags
}

impl Ranked for ManifestEntry {
    type Key = ManifestEntry;

    open spec fn key(&self) -> ManifestEntry {
        *self
    }

    open spec fn precedes(a: ManifestEntry, b: ManifestEntry) -> bool {
        entry_lt(a, b)
    }

    proof fn precedes_irreflexive(a: ManifestEntry) {
    }

    proof fn precedes_transitive(a: ManifestEntry, b: ManifestEntry, c: ManifestEntry) {
    }

    proof fn precedes_total(a: ManifestEntry, b: ManifestEntry) {
    }

    fn less(&self, other: &Self) -> bool {
        if self.hash != other.hash {
            self.hash < other.hash
        } else if self.name_off != other.name_off {
            self.name_off < other.name_off
        } else if self.rva != other.rva {
            self.rva < other.rva
        } else {
            self.flags < other.flags
        }
    }
}

/// The bytes of a header.
pub open spec fn header_bytes(header: ManifestHeader) -> Seq<u8> {
    header.magic@ + le32(header.version) + le32(header.compression) + le64(header.uncompressed_len)
        + le64(header.compressed_len) + le32(header.build_id_len) + header.build_id@ + le32(
        header.entry_count,
    )
}

/// Append the bytes of a header.
pub fn push_header(out: &mut Vec<u8>, header: &ManifestHeader)
    ensures
        final(out)@ == old(out)@ + header_bytes(*header),
{
    push_bytes(out, &header.magic);
    push_u32(out, header.version);
    push_u32(out, header.compression);
    push_u64(out, header.uncompressed_len);
    push_u64(out, header.compressed_len);
    push_u32(out, header.build_id_len);
    push_bytes(out, &header.build_id);
    push_u32(out, header.entry_count);
    assert(out@ =~= old(out)@ + header_bytes(*header));
}

/// Whether the first 72 bytes of `s` are those of `header`.
pub open spec fn is_header_of(header: ManifestHeader, s: Seq<u8>) -> bool {
    &&& header.magic@ == s.subrange(0, 8)
    &&& header.version == u32_at(s, 8)
    &&& header.compression == u32_at(s, 12)
    &&& header.uncompressed_len == u64_at(s, 16)
    &&& header.compressed_len == u64_at(s, 24)
    &&& header.build_id_len == u32_at(s, 32)
    &&& header.build_id@ == s.subrange(36, 68)
    &&& header.entry_count == u32_at(s, 68)
}

impl ManifestHeader {
    /// The header at the front of `bytes` and what follows it.
    pub fn read_from_prefix(bytes: &[u8]) -> (r: Option<(ManifestHeader, &[u8])>)
        ensures
            match r {
                Some((header, rest)) => bytes@.len() >= 72 && is_header_of(header, bytes@) && rest@
                    == bytes@.subrange(72, bytes@.len() as int),
                None => bytes@.len() < 72,
            },
    {
        if bytes.len() < 72 {
            return None;
        }
        let mut magic: [u8; 8] = [0u8;8];
        let mut i: usize = 0;
        while i < 8
            invariant
                i <= 8,
                bytes@.len() >= 72,
                forall|j: int| 0 <= j < i ==> magic@[j] == bytes@[j],
            decreases 8 - i,
        {
            magic[i] = bytes[i];
            i = i + 1;
        }
        let mut build_id: [u8; 32] = [0u8;32];
        i = 0;
        while i < 32
            invariant
                i <= 32,
                bytes@.len() >= 72,
                forall|j: int| 0 <= j < i ==> build_id@[j] == bytes@[36 + j],
            decreases 32 - i,
        {
            build_id[i] = bytes[36 + i];
            i = i + 1;
        }
        let header = ManifestHeader {
            magic,
            version: get_u32(bytes, 8),
            compression: get_u32(bytes, 12),
            uncompressed_len: get_u64(bytes, 16),
            compressed_len: get_u64(bytes, 24),
            build_id_len: get_u32(bytes, 32),
            build_id,
            entry_count: get_u32(bytes, 68),
        };
        assert(header.magic@ =~= bytes@.subrange(0, 8));
        assert(header.build_id@ =~= bytes@.subrange(36, 68));
        Some((header, &bytes[72..bytes.len()]))
    }
}

} // verus!
