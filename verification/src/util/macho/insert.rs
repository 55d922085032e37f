//! Insertion of fixup-free segments in front of `__LINKEDIT`.

use vstd::prelude::*;
use crate::bytes::{all_zero, get_u32, get_u64, is_all_zero, u32_at, u64_at};
use super::format::{
    command_at, command_size_at, fixed_name, name_matches, padded_name, segment_name_at,
    MachOError, CPU_TYPE_X86_64, LC_ATOM_INFO, LC_BUILD_VERSION, LC_CODE_SIGNATURE,
    LC_DATA_IN_CODE, LC_DYLD_CHAINED_FIXUPS, LC_DYLD_ENVIRONMENT, LC_DYLD_EXPORTS_TRIE,
    LC_DYLD_INFO, LC_DYLD_INFO_ONLY, LC_DYLIB_CODE_SIGN_DRS, LC_DYSYMTAB, LC_ENCRYPTION_INFO_64,
    LC_FUNCTION_STARTS, LC_ID_DYLIB, LC_LINKER_OPTIMIZATION_HINT, LC_LOAD_DYLIB,
    LC_LOAD_DYLINKER, LC_LOAD_UPWARD_DYLIB, LC_LOAD_WEAK_DYLIB, LC_MAIN, LC_REEXPORT_DYLIB,
    LC_RPATH, LC_SEGMENT_64, LC_SEGMENT_SPLIT_INFO, LC_SOURCE_VERSION, LC_SYMTAB, LC_UUID,
    LC_VERSION_MIN_IPHONEOS, LC_VERSION_MIN_MACOSX, LC_VERSION_MIN_TVOS, LINKEDIT_NAME,
};

verus! {

/// A section of a segment to insert; `offset` counts from the start of the segment's data.
#[derive(Clone, Debug)]
pub struct SectionSpec {
    pub name: &'static str,
    pub offset: u64,
    pub size: u64,
    pub align: u32,
    pub flags: u32,
}

/// A segment to insert.
#[derive(Clone, Debug)]
pub struct SegmentSpec {
    pub name: String,
    pub data: Vec<u8>,
    pub max_prot: u32,
    pub init_prot: u32,
    pub sections: Vec<SectionSpec>,
}

/// A section to insert, its name as characters.
pub struct SectionModel {
    pub name: Seq<char>,
    pub offset: u64,
    pub size: u64,
    pub align: u32,
    pub flags: u32,
}

/// A segment to insert, as a value.
pub struct SegmentModel {
    pub name: Seq<char>,
    pub data: Seq<u8>,
    pub max_prot: u32,
    pub init_prot: u32,
    pub sections: Seq<SectionModel>,
}

impl View for SectionSpec {
    type V = SectionModel;

    open spec fn view(&self) -> SectionModel {
        SectionModel {
            name: self.name@,
            offset: self.offset,
            size: self.size,
            align: self.align,
            flags: self.flags,
        }
    }
}

impl View for SegmentSpec {
    type V = SegmentModel;

    open spec fn view(&self) -> SegmentModel {
        SegmentModel {
            name: self.name@,
            data: self.data@,
            max_prot: self.max_prot,
            init_prot: self.init_prot,
            sections: section_models(self.sections@),
        }
    }
}

/// The sections of a list, as values.
pub open spec fn section_models(sections: Seq<SectionSpec>) -> Seq<SectionModel> {
    Seq::new(sections.len(), |i: int| sections[i]@)
}

/// The segments of a list, as values.
pub open spec fn segment_models(specs: Seq<SegmentSpec>) -> Seq<SegmentModel> {
    Seq::new(specs.len(), |i: int| specs[i]@)
}

/// Where an inserted segment stands in memory and in the file.
#[derive(Clone, Copy, Debug, PartialEq, Eq, Structural)]
pub struct InsertedSegment {
    pub vmaddr: u64,
    pub fileoff: u64,
    pub filesize: u64,
}

/// An image with its inserted segments.
pub struct InsertResult {
    pub data: Vec<u8>,
    pub segments: Vec<InsertedSegment>,
}

/// What a walk over the load commands has found so far.
#[derive(Clone, Copy, Debug, PartialEq, Eq, Structural)]
pub struct InsertScan {
    /// Offset of the `__LINKEDIT` segment command.
    pub linkedit: Option<usize>,
    /// Position of `__LINKEDIT` among the segments.
    pub linkedit_index: usize,
    /// Offset of the chained-fixups command.
    pub fixups: Option<usize>,
    /// The least file offset at which a section has content.
    pub minimum_content: u64,
    pub segment_count: usize,
}

/// The page size by which segments of the image are placed.
pub open spec fn page_size(data: Seq<u8>) -> u64 {
    if u32_at(data, 4) == CPU_TYPE_X86_64 {
        0x1000
    } else {
        0x4000
    }
}

/// Whether every segment name can be stored.
pub open spec fn names_fit(specs: Seq<SegmentModel>) -> bool {
    forall|i: int| 0 <= i < specs.len() ==> padded_name((#[trigger] specs[i]).name).is_ok()
}

/// The stored form of a segment's name.
pub open spec fn stored_name(spec: SegmentModel) -> Seq<u8> {
    padded_name(spec.name)->Ok_0
}

/// Whether one of the segments is stored under `name`.
pub open spec fn name_requested(specs: Seq<SegmentModel>, name: Seq<u8>) -> bool {
    exists|i: int| 0 <= i < specs.len() && stored_name(#[trigger] specs[i]) == name
}

/// Bytes of the segment command for `spec`, its sections with it.
pub open spec fn segment_command_size(spec: SegmentModel) -> int {
    72 + 80 * (spec.sections.len() as int)
}

/// Bytes of the segment commands for `specs[from..]`.
pub open spec fn commands_size(specs: Seq<SegmentModel>, from: int) -> int
    decreases specs.len() - from,
{
    if from >= specs.len() {
        0
    } else {
        segment_command_size(specs[from]) + commands_size(specs, from + 1)
    }
}

/// The least of `least` and the non-zero file offsets of `n` sections from `off` on.
pub open spec fn least_section(data: Seq<u8>, off: int, n: int, least: u64) -> u64
    decreases n,
{
    if n <= 0 {
        least
    } else {
        let offset = u32_at(data, off + 48);
        least_section(
            data,
            off + 80,
            n - 1,
            if offset != 0 && offset < least {
                offset as u64
            } else {
                least
            },
        )
    }
}

/// Load commands whose file offsets point into `__LINKEDIT`.
pub open spec fn points_into_linkedit(cmd: u32) -> bool {
    ||| cmd == LC_SYMTAB
    ||| cmd == LC_DYSYMTAB
    ||| cmd == LC_DYLD_INFO
    ||| cmd == LC_DYLD_INFO_ONLY
    ||| cmd == LC_CODE_SIGNATURE
    ||| cmd == LC_SEGMENT_SPLIT_INFO
    ||| cmd == LC_FUNCTION_STARTS
    ||| cmd == LC_DATA_IN_CODE
    ||| cmd == LC_DYLIB_CODE_SIGN_DRS
    ||| cmd == LC_LINKER_OPTIMIZATION_HINT
    ||| cmd == LC_DYLD_EXPORTS_TRIE
    ||| cmd == LC_ATOM_INFO
}

/// Load commands without a file offset that could go stale.
pub open spec fn is_position_free(cmd: u32) -> bool {
    ||| cmd == LC_UUID
    ||| cmd == LC_BUILD_VERSION
    ||| cmd == LC_VERSION_MIN_MACOSX
    ||| cmd == LC_VERSION_MIN_IPHONEOS
    ||| cmd == LC_VERSION_MIN_TVOS
    ||| cmd == LC_SOURCE_VERSION
    ||| cmd == LC_MAIN
    ||| cmd == LC_LOAD_DYLINKER
    ||| cmd == LC_DYLD_ENVIRONMENT
    ||| cmd == LC_ID_DYLIB
    ||| cmd == LC_LOAD_DYLIB
    ||| cmd == LC_LOAD_WEAK_DYLIB
    ||| cmd == LC_REEXPORT_DYLIB
    ||| cmd == LC_LOAD_UPWARD_DYLIB
    ||| cmd == LC_RPATH
    ||| cmd == LC_ENCRYPTION_INFO_64
}

/// What the segment command at `off` adds to `found`, or why it is refused.
pub open spec fn segment_scan(
    data: Seq<u8>,
    specs: Seq<SegmentModel>,
    off: int,
    found: InsertScan,
) -> Result<InsertScan, MachOError> {
    let size = command_size_at(data, off);
    let sections = u32_at(data, off + 64) as int;
    let is_linkedit = segment_name_at(data, off) == LINKEDIT_NAME@;
    if size < 72 || off + size > data.len() {
        Err(MachOError::TruncatedSegment)
    } else if name_requested(specs, segment_name_at(data, off)) {
        Err(MachOError::SegmentExists)
    } else if !is_linkedit && found.linkedit.is_some() {
        Err(MachOError::LinkeditNotLast)
    } else if 72 + 80 * sections > size {
        Err(MachOError::TruncatedSections)
    } else {
        Ok(
            InsertScan {
                linkedit: if is_linkedit {
                    Some(off as usize)
                } else {
                    found.linkedit
                },
                linkedit_index: if is_linkedit {
                    found.segment_count
                } else {
                    found.linkedit_index
                },
                fixups: found.fixups,
                minimum_content: least_section(data, off + 72, sections, found.minimum_content),
                segment_count: (found.segment_count + 1) as usize,
            },
        )
    }
}

/// What the command at `off` adds to `found`, or why it is refused.
pub open spec fn command_scan(
    data: Seq<u8>,
    specs: Seq<SegmentModel>,
    off: int,
    found: InsertScan,
) -> Result<InsertScan, MachOError> {
    let cmd = command_at(data, off);
    let size = command_size_at(data, off);
    if cmd == LC_SEGMENT_64 {
        segment_scan(data, specs, off, found)
    } else if cmd == LC_DYLD_CHAINED_FIXUPS {
        if size < 16 || off + size > data.len() {
            Err(MachOError::TruncatedFixupsCommand)
        } else {
            Ok(InsertScan { fixups: Some(off as usize), ..found })
        }
    } else if points_into_linkedit(cmd) || is_position_free(cmd) {
        Ok(found)
    } else {
        Err(MachOError::UnhandledCommand(cmd))
    }
}

/// What the `n` load commands from `off` on add to `found`, or the first that is refused.
pub open spec fn insert_scan(
    data: Seq<u8>,
    specs: Seq<SegmentModel>,
    cmds_end: int,
    off: int,
    n: int,
    found: InsertScan,
) -> Result<InsertScan, MachOError>
    decreases n,
{
    let size = command_size_at(data, off);
    if n <= 0 {
        Ok(found)
    } else if off + 8 > data.len() {
        Err(MachOError::TruncatedCommands)
    } else if size < 8 || off + size > cmds_end {
        Err(MachOError::BadCommandSize(off as usize))
    } else {
        match command_scan(data, specs, off, found) {
            Err(e) => Err(e),
            Ok(next) => insert_scan(data, specs, cmds_end, off + size, n - 1, next),
        }
    }
}

/// The state in which the walk over the load commands starts.
pub open spec fn scan_start() -> InsertScan {
    InsertScan {
        linkedit: None,
        linkedit_index: 0,
        fixups: None,
        minimum_content: u64::MAX,
        segment_count: 0,
    }
}

/// Whether the `n` commands from `off` on lie one behind the other up to `cmds_end`.
pub open spec fn commands_lie(data: Seq<u8>, cmds_end: int, off: int, n: int) -> bool
    decreases n,
{
    n <= 0 || {
        &&& off + 8 <= data.len()
        &&& command_size_at(data, off) >= 8
        &&& off + command_size_at(data, off) <= cmds_end
        &&& commands_lie(data, cmds_end, off + command_size_at(data, off), n - 1)
    }
}

/// Whether a `__LINKEDIT` command at `linkedit` and `lc_size` more bytes of commands fit the image.
pub open spec fn room_for_commands(
    data: Seq<u8>,
    linkedit: int,
    cmds_end: int,
    lc_size: int,
    minimum_content: u64,
) -> Result<(), MachOError> {
    let page = page_size(data);
    if u64_at(data, linkedit + 40) % page != 0 || u64_at(data, linkedit + 24) % page != 0 {
        Err(MachOError::LinkeditNotAligned)
    } else if cmds_end + lc_size > usize::MAX {
        Err(MachOError::CommandSizeOverflow)
    } else if cmds_end + lc_size > minimum_content {
        Err(
            MachOError::InsufficientHeadroom {
                needed: lc_size as usize,
                available: (if minimum_content > cmds_end {
                    minimum_content - cmds_end
                } else {
                    0
                }) as usize,
            },
        )
    } else if cmds_end + lc_size > data.len() {
        Err(MachOError::HeadroomOutsideFile)
    } else if !all_zero(data.subrange(cmds_end, cmds_end + lc_size)) {
        Err(MachOError::HeadroomNotZero)
    } else {
        Ok(())
    }
}

/// The commands that a scan accepts lie one behind the other.
pub proof fn lemma_scan_lies(
    data: Seq<u8>,
    specs: Seq<SegmentModel>,
    cmds_end: int,
    off: int,
    n: int,
    found: InsertScan,
)
    requires
        insert_scan(data, specs, cmds_end, off, n, found).is_ok(),
    ensures
        commands_lie(data, cmds_end, off, n),
    decreases n,
{
    if n > 0 {
        match command_scan(data, specs, off, found) {
            Ok(next) => {
                lemma_scan_lies(
                    data,
                    specs,
                    cmds_end,
                    off + command_size_at(data, off),
                    n - 1,
                    next,
                );
            },
            Err(_) => {},
        }
    }
}

/// The stored names of the segments.
pub fn stored_names(specs: &[SegmentSpec]) -> (r: Result<Vec<[u8; 16]>, MachOError>)
    ensures
        match r {
            Ok(names) => names_fit(segment_models(specs@)) && names@.len() == segment_models(specs@).len() && (forall|i: int|
                0 <= i < segment_models(specs@).len() ==> (#[trigger] names@[i])@ == stored_name(segment_models(specs@)[i])),
            Err(e) => e == MachOError::BadName && !names_fit(segment_models(specs@)),
        },
{
    let mut names: Vec<[u8; 16]> = Vec::new();
    let mut i: usize = 0;
    while i < specs.len()
        invariant
            i <= segment_models(specs@).len(),
            names@.len() == i,
            forall|j: int|
                0 <= j < i ==> padded_name((#[trigger] segment_models(specs@)[j]).name).is_ok() && names@[j]@
                    == stored_name(segment_models(specs@)[j]),
        decreases segment_models(specs@).len() - i,
    {
        match fixed_name(specs[i].name.as_str()) {
            Ok(name) => {
                names.push(name);
            },
            Err(e) => {
                assert(!padded_name(segment_models(specs@)[i as int].name).is_ok());
                return Err(e);
            },
        }
        i = i + 1;
    }
    Ok(names)
}

/// The sizes of the remaining commands add up to at least nothing.
pub proof fn lemma_commands_size(specs: Seq<SegmentModel>, from: int)
    ensures
        commands_size(specs, from) >= 0,
    decreases specs.len() - from,
{
    if from < specs.len() {
        lemma_commands_size(specs, from + 1);
    }
}

/// Bytes of all segment commands, where they can be counted.
pub fn count_commands(specs: &[SegmentSpec]) -> (r: Result<usize, MachOError>)
    ensures
        match r {
            Ok(size) => size == commands_size(segment_models(specs@), 0),
            Err(e) => e == MachOError::SegmentCommandTooLarge && commands_size(segment_models(specs@), 0)
                > usize::MAX,
        },
{
    let mut total: usize = 0;
    let mut i: usize = 0;
    while i < specs.len()
        invariant
            i <= segment_models(specs@).len(),
            total + commands_size(segment_models(specs@), i as int) == commands_size(segment_models(specs@), 0),
        decreases segment_models(specs@).len() - i,
    {
        proof {
            lemma_commands_size(segment_models(specs@), i + 1);
        }
        let sections: usize = specs[i].sections.len();
        if sections > (usize::MAX - 72) / 80 {
            return Err(MachOError::SegmentCommandTooLarge);
        }
        let size: usize = 72 + 80 * sections;
        if total > usize::MAX - size {
            return Err(MachOError::SegmentCommandTooLarge);
        }
        total = total + size;
        i = i + 1;
    }
    Ok(total)
}

/// Whether the 16 bytes at `off` are one of `names`.
fn is_requested(data: &[u8], off: usize, names: &Vec<[u8; 16]>) -> (r: bool)
    requires
        off + 16 <= data@.len(),
    ensures
        r == exists|i: int|
            0 <= i < names@.len() && (#[trigger] names@[i])@ == data@.subrange(
                off as int,
                off + 16,
            ),
{
    let mut i: usize = 0;
    while i < names.len()
        invariant
            i <= names@.len(),
            off + 16 <= data@.len(),
            forall|j: int|
                0 <= j < i ==> (#[trigger] names@[j])@ != data@.subrange(off as int, off + 16),
        decreases names@.len() - i,
    {
        if name_matches(data, off, &names[i]) {
            assert(names@[i as int]@ == data@.subrange(off as int, off + 16));
            return true;
        }
        i = i + 1;
    }
    false
}

/// The least of `least` and the file offsets of the sections.
fn find_least_section(data: &[u8], off: usize, n: usize, least: u64) -> (r: u64)
    requires
        off + 80 * n <= data@.len(),
    ensures
        r == least_section(data@, off as int, n as int, least),
{
    assert(data.len() <= usize::MAX);
    let mut low: u64 = least;
    let mut i: usize = 0;
    while i < n
        invariant
            i <= n,
            off + 80 * n <= data@.len() <= usize::MAX,
            least_section(data@, off + 80 * i, n - i, low) == least_section(
                data@,
                off as int,
                n as int,
                least,
            ),
        decreases n - i,
    {
        let offset: u32 = get_u32(data, off + 80 * i + 48);
        if offset != 0 && (offset as u64) < low {
            low = offset as u64;
        }
        i = i + 1;
    }
    low
}

/// Load commands that can be kept without a look inside.
fn is_known(cmd: u32) -> (r: bool)
    ensures
        r == (points_into_linkedit(cmd) || is_position_free(cmd)),
{
    cmd == LC_SYMTAB || cmd == LC_DYSYMTAB || cmd == LC_DYLD_INFO || cmd == LC_DYLD_INFO_ONLY
        || cmd == LC_CODE_SIGNATURE || cmd == LC_SEGMENT_SPLIT_INFO || cmd == LC_FUNCTION_STARTS
        || cmd == LC_DATA_IN_CODE || cmd == LC_DYLIB_CODE_SIGN_DRS || cmd
        == LC_LINKER_OPTIMIZATION_HINT || cmd == LC_DYLD_EXPORTS_TRIE || cmd == LC_ATOM_INFO || cmd
        == LC_UUID || cmd == LC_BUILD_VERSION || cmd == LC_VERSION_MIN_MACOSX || cmd
        == LC_VERSION_MIN_IPHONEOS || cmd == LC_VERSION_MIN_TVOS || cmd == LC_SOURCE_VERSION || cmd
        == LC_MAIN || cmd == LC_LOAD_DYLINKER || cmd == LC_DYLD_ENVIRONMENT || cmd == LC_ID_DYLIB
        || cmd == LC_LOAD_DYLIB || cmd == LC_LOAD_WEAK_DYLIB || cmd == LC_REEXPORT_DYLIB || cmd
        == LC_LOAD_UPWARD_DYLIB || cmd == LC_RPATH || cmd == LC_ENCRYPTION_INFO_64
}

/// Take in the segment command at `off`.
fn scan_segment(
    data: &[u8],
    specs: &[SegmentSpec],
    names: &Vec<[u8; 16]>,
    off: usize,
    found: InsertScan,
) -> (r: Result<InsertScan, MachOError>)
    requires
        off + 8 <= data@.len(),
        found.segment_count < usize::MAX,
        names@.len() == segment_models(specs@).len(),
        forall|i: int|
            0 <= i < segment_models(specs@).len() ==> (#[trigger] names@[i])@ == stored_name(segment_models(specs@)[i]),
    ensures
        r == segment_scan(data@, segment_models(specs@), off as int, found),
{
    assert(data.len() <= usize::MAX);
    let size: usize = get_u32(data, off + 4) as usize;
    if size < 72 || size > data.len() - off {
        return Err(MachOError::TruncatedSegment);
    }
    let requested: bool = is_requested(data, off + 8, names);
    proof {
        let name = segment_name_at(data@, off as int);
        if name_requested(segment_models(specs@), name) {
            let i = choose|i: int| 0 <= i < segment_models(specs@).len() && stored_name(#[trigger] segment_models(specs@)[i]) == name;
            assert(names@[i]@ == name);
        }
        if requested {
            let i = choose|i: int| 0 <= i < names@.len() && (#[trigger] names@[i])@ == name;
            assert(stored_name(segment_models(specs@)[i]) == name);
        }
    }
    if requested {
        return Err(MachOError::SegmentExists);
    }
    let is_linkedit: bool = name_matches(data, off + 8, &LINKEDIT_NAME);
    if !is_linkedit && found.linkedit.is_some() {
        return Err(MachOError::LinkeditNotLast);
    }
    let sections: usize = get_u32(data, off + 64) as usize;
    if sections > (size - 72) / 80 {
        return Err(MachOError::TruncatedSections);
    }
    Ok(
        InsertScan {
            linkedit: if is_linkedit {
                Some(off)
            } else {
                found.linkedit
            },
            linkedit_index: if is_linkedit {
                found.segment_count
            } else {
                found.linkedit_index
            },
            fixups: found.fixups,
            minimum_content: find_least_section(data, off + 72, sections, found.minimum_content),
            segment_count: found.segment_count + 1,
        },
    )
}

/// Whether the commands that were found lie inside the file, among the commands.
pub open spec fn found_lies(data: Seq<u8>, cmds_end: int, found: InsertScan) -> bool {
    &&& found.linkedit matches Some(l) ==> 32 <= l && l + 72 <= cmds_end && l + 72 <= data.len()
    &&& found.fixups matches Some(f) ==> 32 <= f && f + 16 <= cmds_end && f + 16 <= data.len()
}

/// Walk over the load commands.
pub fn scan_commands(
    data: &[u8],
    specs: &[SegmentSpec],
    names: &Vec<[u8; 16]>,
    cmds_end: usize,
    ncmds: u32,
) -> (r: Result<InsertScan, MachOError>)
    requires
        32 <= cmds_end,
        32 <= data@.len(),
        names@.len() == segment_models(specs@).len(),
        forall|i: int|
            0 <= i < segment_models(specs@).len() ==> (#[trigger] names@[i])@ == stored_name(segment_models(specs@)[i]),
    ensures
        r == insert_scan(data@, segment_models(specs@), cmds_end as int, 32, ncmds as int, scan_start()),
        r matches Ok(found) ==> found_lies(data@, cmds_end as int, found) && commands_lie(
            data@,
            cmds_end as int,
            32,
            ncmds as int,
        ),
{
    assert(data.len() <= usize::MAX);
    let mut found = InsertScan {
        linkedit: None,
        linkedit_index: 0,
        fixups: None,
        minimum_content: u64::MAX,
        segment_count: 0,
    };
    let mut offset: usize = 32;
    let mut done: u32 = 0;
    while done < ncmds
        invariant
            done <= ncmds,
            32 <= offset <= cmds_end,
            32 <= data@.len() <= usize::MAX,
            names@.len() == segment_models(specs@).len(),
            forall|i: int|
                0 <= i < segment_models(specs@).len() ==> (#[trigger] names@[i])@ == stored_name(segment_models(specs@)[i]),
            found.segment_count <= done,
            found_lies(data@, cmds_end as int, found),
            insert_scan(data@, segment_models(specs@), cmds_end as int, offset as int, ncmds - done, found)
                == insert_scan(data@, segment_models(specs@), cmds_end as int, 32, ncmds as int, scan_start()),
        decreases ncmds - done,
    {
        if offset > data.len() || data.len() - offset < 8 {
            return Err(MachOError::TruncatedCommands);
        }
        let cmd: u32 = get_u32(data, offset);
        let cmdsize: usize = get_u32(data, offset + 4) as usize;
        if cmdsize < 8 || cmdsize > cmds_end - offset {
            return Err(MachOError::BadCommandSize(offset));
        }
        if cmd == LC_SEGMENT_64 {
            found = scan_segment(data, specs, names, offset, found)?;
        } else if cmd == LC_DYLD_CHAINED_FIXUPS {
            if cmdsize < 16 || cmdsize > data.len() - offset {
                return Err(MachOError::TruncatedFixupsCommand);
            }
            found =
            InsertScan {
                linkedit: found.linkedit,
                linkedit_index: found.linkedit_index,
                fixups: Some(offset),
                minimum_content: found.minimum_content,
                segment_count: found.segment_count,
            };
        } else if !is_known(cmd) {
            return Err(MachOError::UnhandledCommand(cmd));
        }
        offset = offset + cmdsize;
        done = done + 1;
    }
    proof {
        lemma_scan_lies(data@, segment_models(specs@), cmds_end as int, 32, ncmds as int, scan_start());
    }
    Ok(found)
}

/// The page size by which segments of the image are placed.
pub fn find_page_size(data: &[u8]) -> (r: u64)
    requires
        8 <= data@.len(),
    ensures
        r == page_size(data@),
{
    if get_u32(data, 4) == CPU_TYPE_X86_64 {
        0x1000
    } else {
        0x4000
    }
}

/// Check the room for the new commands.
pub fn check_room(
    data: &[u8],
    linkedit: usize,
    cmds_end: usize,
    lc_size: usize,
    minimum_content: u64,
) -> (r: Result<(), MachOError>)
    requires
        8 <= data@.len(),
        linkedit + 72 <= data@.len(),
    ensures
        r == room_for_commands(
            data@,
            linkedit as int,
            cmds_end as int,
            lc_size as int,
            minimum_content,
        ),
{
    assert(data.len() <= usize::MAX);
    let page: u64 = find_page_size(data);
    if get_u64(data, linkedit + 40) % page != 0 || get_u64(data, linkedit + 24) % page != 0 {
        return Err(MachOError::LinkeditNotAligned);
    }
    let required_end: usize = match cmds_end.checked_add(lc_size) {
        Some(end) => end,
        None => return Err(MachOError::CommandSizeOverflow),
    };
    if required_end as u64 > minimum_content {
        let available: usize = if minimum_content > cmds_end as u64 {
            (minimum_content - cmds_end as u64) as usize
        } else {
            0
        };
        return Err(MachOError::InsufficientHeadroom { needed: lc_size, available });
    }
    if required_end > data.len() {
        return Err(MachOError::HeadroomOutsideFile);
    }
    if !is_all_zero(&data[cmds_end..required_end]) {
        return Err(MachOError::HeadroomNotZero);
    }
    Ok(())
}

} // verus!
