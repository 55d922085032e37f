//! Field positions, command numbers and small readers shared by the Mach-O code.

use vstd::prelude::*;
use vstd::string::*;
use vstd::utf8::*;
use crate::bytes::{align_int, get_u16, get_u32, get_u64, resized, u16_at, u32_at, u64_at};

verus! {

pub const MH_MAGIC_64: u32 = 0xfeed_facf;

pub const CPU_TYPE_X86_64: u32 = 0x0100_0007;

pub const CPU_TYPE_ARM64: u32 = 0x0100_000c;

pub const LC_SYMTAB: u32 = 0x2;

pub const LC_DYSYMTAB: u32 = 0xb;

pub const LC_LOAD_DYLIB: u32 = 0xc;

pub const LC_ID_DYLIB: u32 = 0xd;

pub const LC_LOAD_DYLINKER: u32 = 0xe;

pub const LC_LOAD_WEAK_DYLIB: u32 = 0x8000_0018;

pub const LC_SEGMENT_64: u32 = 0x19;

pub const LC_UUID: u32 = 0x1b;

pub const LC_RPATH: u32 = 0x8000_001c;

pub const LC_CODE_SIGNATURE: u32 = 0x1d;

pub const LC_SEGMENT_SPLIT_INFO: u32 = 0x1e;

pub const LC_REEXPORT_DYLIB: u32 = 0x8000_001f;

pub const LC_DYLD_INFO: u32 = 0x22;

pub const LC_DYLD_INFO_ONLY: u32 = 0x8000_0022;

pub const LC_LOAD_UPWARD_DYLIB: u32 = 0x8000_0023;

pub const LC_VERSION_MIN_MACOSX: u32 = 0x24;

pub const LC_VERSION_MIN_IPHONEOS: u32 = 0x25;

pub const LC_FUNCTION_STARTS: u32 = 0x26;

pub const LC_DYLD_ENVIRONMENT: u32 = 0x27;

pub const LC_MAIN: u32 = 0x8000_0028;

pub const LC_DATA_IN_CODE: u32 = 0x29;

pub const LC_SOURCE_VERSION: u32 = 0x2a;

pub const LC_DYLIB_CODE_SIGN_DRS: u32 = 0x2b;

pub const LC_ENCRYPTION_INFO_64: u32 = 0x2c;

pub const LC_LINKER_OPTIMIZATION_HINT: u32 = 0x2e;

pub const LC_VERSION_MIN_TVOS: u32 = 0x2f;

pub const LC_BUILD_VERSION: u32 = 0x32;

pub const LC_DYLD_EXPORTS_TRIE: u32 = 0x8000_0033;

pub const LC_DYLD_CHAINED_FIXUPS: u32 = 0x8000_0034;

pub const LC_ATOM_INFO: u32 = 0x36;

pub const VM_PROT_READ: u32 = 1;

/// The padded segment name `__LINKEDIT`.
pub const LINKEDIT_NAME: [u8; 16] = [
    0x5f,
    0x5f,
    0x4c,
    0x49,
    0x4e,
    0x4b,
    0x45,
    0x44,
    0x49,
    0x54,
    0,
    0,
    0,
    0,
    0,
    0,
];

/// Why a Mach-O image was refused.
#[derive(Clone, Copy, Debug, PartialEq, Eq, Structural)]
pub enum MachOError {
    TruncatedHeader,
    NotMachO64,
    CommandSizeOverflow,
    CommandsPastEnd,
    TruncatedCommands,
    BadCommandSize(usize),
    TruncatedSegment,
    TruncatedSections,
    MultipleLinkedit,
    MultipleSignatures,
    TruncatedSignature,
    SignatureWithoutLinkedit,
    EmptySignature,
    SignatureRangeOverflow,
    LinkeditRangeOverflow,
    SignatureOutsideLinkedit,
    SignatureNotLast,
    TruncatedFixups,
    FixupsVersion(u32),
    FixupsStartsOverlapHeader(usize),
    FixupsSegmentCount { found: usize, expected: usize },
    FixupsSegmentIndex { index: usize, count: usize },
    FixupsArrayOverflow,
    FixupsCountTooLarge,
    FixupsArrayTruncated,
    FixupsInfoIntoArray(u32),
    FixupsGrowthTooLarge,
    FixupsInfoOverflow,
    FixupsTableBeforeTail(u32),
    FixupsTableOverflow,
    BadName,
    SegmentExists,
    LinkeditNotLast,
    TruncatedFixupsCommand,
    UnhandledCommand(u32),
    NoLinkedit,
    LinkeditNotAligned,
    InsufficientHeadroom { needed: usize, available: usize },
    HeadroomOutsideFile,
    HeadroomNotZero,
    EmptySegment,
    AlignOverflow,
    InsertedOverflow,
    SectionRangeOverflow,
    SectionPastSegment,
    SectionAlignTooLarge,
    SectionOverflow,
    SectionMisaligned,
    FixupsRangeOverflow,
    FixupsOutsideFile,
    TruncatedSymtab,
    TruncatedDysymtab,
    TruncatedDyldInfo,
    TruncatedLinkeditData,
    FileOffsetOverflow,
    FileOffsetTooLarge,
    FixupsSizeOverflow,
    LinkeditOverflow,
    SegmentCommandTooLarge,
    SectionOffsetTooLarge,
    CommandCountOverflow,
    OutputOverflow,
    LinkeditOutsideFile,
    FixupsBeforeLinkedit,
    UnknownKind,
    NotThin64,
    ParseFailed,
    NoImageBase,
    CommandsUnreadable,
    AddressOverflow,
    NotFileBacked { start: u64, end: u64 },
    MappedOutsideFile,
    NoSection,
    SectionNotFileBacked,
    SectionTooLarge,
    SectionOutsideFile,
    NoFixup(u64),
    BindOutsideImage(u64),
    TargetOutsideImage(u64),
    ChainedSegmentCount,
    ChainedOverflow,
    ChainedTruncatedStarts,
    ChainedTruncatedPages,
    ChainedTruncatedMulti,
    ChainedEscapesPage,
    StreamOutsideFile,
    TruncatedUleb,
    UlebOverflow,
    RebaseType(u8),
    RebaseSegment,
    RebaseOverflow,
    RebaseOpcode(u8),
    UnterminatedSymbol,
    TruncatedSleb,
    BindSegment,
    BindOverflow,
    BindOpcode(u8),
}

/// The command number of the load command at `off`.
pub open spec fn command_at(data: Seq<u8>, off: int) -> u32 {
    u32_at(data, off)
}

/// The size of the load command at `off`.
pub open spec fn command_size_at(data: Seq<u8>, off: int) -> int {
    u32_at(data, off + 4) as int
}

/// The padded name of the segment command at `off`.
pub open spec fn segment_name_at(data: Seq<u8>, off: int) -> Seq<u8> {
    data.subrange(off + 8, off + 24)
}

/// Round `value` up to a multiple of `align`; an alignment of zero counts as one.
pub open spec fn aligned(value: u64, align: u64) -> Result<u64, MachOError> {
    let a: int = if align == 0 {
        1
    } else {
        align as int
    };
    if align_int(value as int, a) > u64::MAX {
        Err(MachOError::AlignOverflow)
    } else {
        Ok(align_int(value as int, a) as u64)
    }
}

/// Round `value` up to a multiple of `align`.
pub fn align_up(value: u64, align: u64) -> (r: Result<u64, MachOError>)
    ensures
        r == aligned(value, align),
{
    let align: u64 = if align == 0 {
        1
    } else {
        align
    };
    let remainder: u64 = value % align;
    if remainder == 0 {
        Ok(value)
    } else {
        match value.checked_add(align - remainder) {
            Some(v) => Ok(v),
            None => Err(MachOError::AlignOverflow),
        }
    }
}

/// The 16 bytes that stand for a segment or section name: the name itself, padded with zeros.
pub open spec fn padded_name(name: Seq<char>) -> Result<Seq<u8>, MachOError> {
    if encode_utf8(name).len() > 16 || !is_ascii_chars(name) {
        Err(MachOError::BadName)
    } else {
        Ok(resized(encode_utf8(name), 16))
    }
}

/// The padded form of a segment or section name.
pub fn fixed_name(name: &str) -> (r: Result<[u8; 16], MachOError>)
    ensures
        match r {
            Ok(b) => padded_name(name@) == Ok::<Seq<u8>, MachOError>(b@),
            Err(e) => padded_name(name@) == Err::<Seq<u8>, MachOError>(e),
        },
{
    let bytes: &[u8] = name.as_bytes();
    if bytes.len() > 16 || !name.is_ascii() {
        return Err(MachOError::BadName);
    }
    let mut result: [u8; 16] = [0u8;16];
    let mut i: usize = 0;
    while i < bytes.len()
        invariant
            i <= bytes@.len() <= 16,
            result@ == resized(bytes@.subrange(0, i as int), 16),
        decreases bytes@.len() - i,
    {
        result[i] = bytes[i];
        i = i + 1;
        assert(result@ =~= resized(bytes@.subrange(0, i as int), 16));
    }
    assert(bytes@.subrange(0, bytes@.len() as int) =~= bytes@);
    Ok(result)
}

/// The two-byte field at `off`, or an error where the blob ends before it does.
pub fn read_u16(blob: &[u8], off: usize) -> (r: Result<u16, MachOError>)
    ensures
        r == (if off + 2 <= blob@.len() {
            Ok::<u16, MachOError>(u16_at(blob@, off as int))
        } else {
            Err(MachOError::TruncatedFixups)
        }),
{
    if off <= blob.len() && blob.len() - off >= 2 {
        Ok(get_u16(blob, off))
    } else {
        Err(MachOError::TruncatedFixups)
    }
}

/// The four-byte field at `off`, or an error where the blob ends before it does.
pub open spec fn field_u32(blob: Seq<u8>, off: int) -> Result<u32, MachOError> {
    if off + 4 <= blob.len() {
        Ok(u32_at(blob, off))
    } else {
        Err(MachOError::TruncatedFixups)
    }
}

/// The four-byte field at `off`, or an error where the blob ends before it does.
pub fn read_u32(blob: &[u8], off: usize) -> (r: Result<u32, MachOError>)
    ensures
        r == field_u32(blob@, off as int),
{
    if off <= blob.len() && blob.len() - off >= 4 {
        Ok(get_u32(blob, off))
    } else {
        Err(MachOError::TruncatedFixups)
    }
}

/// The eight-byte field at `off`, or an error where the blob ends before it does.
pub fn read_u64(blob: &[u8], off: usize) -> (r: Result<u64, MachOError>)
    ensures
        r == (if off + 8 <= blob@.len() {
            Ok::<u64, MachOError>(u64_at(blob@, off as int))
        } else {
            Err(MachOError::TruncatedFixups)
        }),
{
    if off <= blob.len() && blob.len() - off >= 8 {
        Ok(get_u64(blob, off))
    } else {
        Err(MachOError::TruncatedFixups)
    }
}

/// Whether the 16 bytes at `off` are the padded name `name`.
pub fn name_matches(data: &[u8], off: usize, name: &[u8; 16]) -> (r: bool)
    requires
        off + 16 <= data@.len(),
    ensures
        r == (data@.subrange(off as int, off + 16) == name@),
{
    let mut i: usize = 0;
    assert(data.len() <= usize::MAX);
    while i < 16
        invariant
            i <= 16,
            off + 16 <= data@.len() <= usize::MAX,
            forall|j: int| 0 <= j < i ==> data@[off + j] == name@[j],
        decreases 16 - i,
    {
        if data[off + i] != name[i] {
            assert(data@.subrange(off as int, off + 16)[i as int] != name@[i as int]);
            return false;
        }
        i = i + 1;
    }
    assert(data@.subrange(off as int, off + 16) =~= name@);
    true
}

} // verus!
