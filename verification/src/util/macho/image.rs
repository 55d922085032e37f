//! Read-only view of a thin 64-bit Mach-O image.

use object::read::macho::{LoadCommandVariant, MachOFile64};
use object::{Object, ObjectSection};
use std::ops::Range;
use vstd::prelude::*;
use crate::bytes::{get_u64, u64_at};
use crate::util::objfile::{file_kind, read_kind, ImageKind};
use super::chains::{chained_fixups_of, read_chained_fixups};
use super::fixups::{
    binds_of, fixup_models, parse_bind_opcodes, parse_rebase_opcodes, rebases_from, Fixup,
    FixupModel, FixupTarget, Segment, TargetModel,
};
use super::format::{name_matches, MachOError, LC_DYLD_CHAINED_FIXUPS, LINKEDIT_NAME};
use super::listing::lists_segments;
use super::unsupported::{find_unsupported, unsupported_in, Unsupported};

verus! {

/// The header fields and the segments of an image.
#[derive(Clone, Debug)]
pub struct MachOFacts {
    pub cpu_type: u32,
    pub cpu_subtype: u32,
    pub segments: Vec<Segment>,
}

/// The header fields and the segments of an image, as a value.
pub struct FactsModel {
    pub cpu_type: u32,
    pub cpu_subtype: u32,
    pub segments: Seq<Segment>,
}

/// What a load command is, as far as the fixups depend on it.
#[derive(Clone, Copy, Debug, PartialEq, Eq)]
pub enum CommandKind {
    /// File offset and size of the data that the command locates.
    LinkeditData(u32, u32),
    /// File offset and size of the rebases, binds, weak binds and lazy binds, in this order.
    DyldInfo([u32; 8]),
    Other,
}

/// A load command: its number, and what it is where it can be read.
#[derive(Clone, Copy, Debug, PartialEq, Eq)]
pub struct CommandFact {
    pub cmd: u32,
    pub kind: Option<CommandKind>,
}

/// What `MachOFile64::parse` finds in the bytes of an image.
pub uninterp spec fn parsed_facts(data: Seq<u8>) -> Option<FactsModel>;

/// The load commands that `MachOFile64::macho_load_commands` walks over.
pub uninterp spec fn parsed_commands(data: Seq<u8>) -> Option<Seq<CommandFact>>;

/// For each load command the platform that `LoadCommandData::build_version` finds in it.
pub uninterp spec fn parsed_build_versions(data: Seq<u8>) -> Option<Seq<Option<u32>>>;

/// The file range of the section that `MachOFile64::section_by_name` finds: nothing without such a
/// section, no range for a section without file contents.
pub uninterp spec fn parsed_section(data: Seq<u8>, name: Seq<char>) -> Option<Option<(u64, u64)>>;

/// `MachOFile64::parse`: the header and the segments of the file, under the name of its result. It
/// walks over the load commands and takes up each segment command, so where they lie one behind the
/// other in a little-endian file, the segments are those of the commands.
#[verifier::external_body]
fn read_facts(data: &[u8]) -> (r: Option<MachOFacts>)
    ensures
        match r {
            Some(f) => parsed_facts(data@) == Some(f@) && lists_segments(data@, f.segments@),
            None => parsed_facts(data@) is None,
        },
{
    let file: MachOFile64 = MachOFile64::parse(data).ok()?;
    let (endian, header) = (file.endian(), file.macho_header());
    let segments = file.segments().map(|segment| {
        let raw = segment.macho_segment();
        Segment {
            vmaddr: raw.vmaddr.get(endian),
            vmsize: raw.vmsize.get(endian),
            fileoff: raw.fileoff.get(endian),
            filesize: raw.filesize.get(endian),
            max_prot: raw.maxprot.get(endian),
            init_prot: raw.initprot.get(endian),
            name: raw.segname,
        }
    }).collect();
    Some(MachOFacts { cpu_type: header.cputype.get(endian), cpu_subtype: header.cpusubtype.get(endian), segments })
}

/// `MachOFile64::macho_load_commands` and `LoadCommandData::variant`: the load commands in order,
/// under the name of the result. A command that is too short for its kind has none.
#[verifier::external_body]
fn read_commands(data: &[u8]) -> (r: Option<Vec<CommandFact>>)
    ensures
        match r {
            Some(c) => parsed_commands(data@) == Some(c@),
            None => parsed_commands(data@) is None,
        },
{
    let file: MachOFile64 = MachOFile64::parse(data).ok()?;
    let e = file.endian();
    file.macho_load_commands().ok()?.map(|command| {
        let command = command.ok()?;
        let kind = command.variant().ok().map(|variant| match variant {
            LoadCommandVariant::LinkeditData(d) => CommandKind::LinkeditData(d.dataoff.get(e), d.datasize.get(e)),
            LoadCommandVariant::DyldInfo(i) => CommandKind::DyldInfo(
                [i.rebase_off, i.rebase_size, i.bind_off, i.bind_size, i.weak_bind_off, i.weak_bind_size, i.lazy_bind_off, i.lazy_bind_size].map(|v| v.get(e)),
            ),
            _ => CommandKind::Other,
        });
        Some(CommandFact { cmd: command.cmd(), kind })
    }).collect()
}

/// `LoadCommandData::build_version`: for each load command the platform that it names, under the
/// name of the result; nothing for a command of another number.
#[verifier::external_body]
fn read_build_versions(data: &[u8]) -> (r: Option<Vec<Option<u32>>>)
    ensures
        match r {
            Some(v) => parsed_build_versions(data@) == Some(v@),
            None => parsed_build_versions(data@) is None,
        },
{
    let file: MachOFile64 = MachOFile64::parse(data).ok()?;
    let e = file.endian();
    file.macho_load_commands().ok()?.map(|command| {
        Some(command.ok()?.build_version().ok()?.map(|version| version.platform.get(e)))
    }).collect()
}

/// `MachOFile64::section_by_name`: the file range of the section, under the name of its result.
#[verifier::external_body]
fn read_section(data: &[u8], name: &str) -> (r: Option<Option<(u64, u64)>>)
    ensures
        r == parsed_section(data@, name@),
{
    let file: MachOFile64 = MachOFile64::parse(data).ok()?;
    Some(file.section_by_name(name)?.file_range())
}

impl View for MachOFacts {
    type V = FactsModel;

    open spec fn view(&self) -> FactsModel {
        FactsModel {
            cpu_type: self.cpu_type,
            cpu_subtype: self.cpu_subtype,
            segments: self.segments@,
        }
    }
}

/// What an image holds, as a value.
pub struct ImageModel {
    pub data: Seq<u8>,
    pub cpu_type: u32,
    pub cpu_subtype: u32,
    pub segments: Seq<Segment>,
    pub preferred_base: u64,
}

/// Whether a segment holds the start of the file.
pub open spec fn maps_file_start(segment: Segment) -> bool {
    segment.fileoff == 0 && segment.filesize != 0
}

/// Whether `base` is the least address at which the start of the file is mapped.
pub open spec fn is_preferred_base(segments: Seq<Segment>, base: u64) -> bool {
    &&& exists|i: int|
        0 <= i < segments.len() && maps_file_start(#[trigger] segments[i]) && segments[i].vmaddr
            == base
    &&& forall|i: int|
        0 <= i < segments.len() && maps_file_start(#[trigger] segments[i]) ==> base
            <= segments[i].vmaddr
}

/// Whether some segment maps the start of the file.
pub open spec fn has_preferred_base(segments: Seq<Segment>) -> bool {
    exists|i: int| 0 <= i < segments.len() && maps_file_start(#[trigger] segments[i])
}

/// The image that a file holds.
pub open spec fn macho_image(data: Seq<u8>) -> Result<ImageModel, MachOError> {
    match file_kind(data) {
        None => Err(MachOError::UnknownKind),
        Some(ImageKind::MachO64) => match parsed_facts(data) {
            None => Err(MachOError::ParseFailed),
            Some(facts) => if has_preferred_base(facts.segments) {
                Ok(
                    ImageModel {
                        data,
                        cpu_type: facts.cpu_type,
                        cpu_subtype: facts.cpu_subtype,
                        segments: facts.segments,
                        preferred_base: choose|base: u64| is_preferred_base(facts.segments, base),
                    },
                )
            } else {
                Err(MachOError::NoImageBase)
            },
        },
        Some(_) => Err(MachOError::NotThin64),
    }
}

/// Whether every load command can be read.
pub open spec fn all_readable(commands: Seq<CommandFact>) -> bool {
    forall|i: int| 0 <= i < commands.len() ==> (#[trigger] commands[i]).kind is Some
}

/// The platforms that are named, in order.
pub open spec fn named_platforms(versions: Seq<Option<u32>>) -> Seq<u32>
    decreases versions.len(),
{
    if versions.len() == 0 {
        Seq::empty()
    } else {
        match versions.last() {
            Some(platform) => named_platforms(versions.drop_last()).push(platform),
            None => named_platforms(versions.drop_last()),
        }
    }
}

/// The file offset of the range `vmaddr..end`, from the first of the segments from `from` on that
/// holds it in the file.
pub open spec fn file_offset_from(
    segments: Seq<Segment>,
    from: int,
    vmaddr: u64,
    end: int,
) -> Result<usize, MachOError>
    decreases segments.len() - from,
{
    if from >= segments.len() {
        Err(MachOError::NotFileBacked { start: vmaddr, end: end as u64 })
    } else {
        let segment = segments[from];
        if segment.vmaddr + segment.filesize > u64::MAX {
            Err(MachOError::AddressOverflow)
        } else if vmaddr >= segment.vmaddr && end <= segment.vmaddr + segment.filesize {
            let offset = segment.fileoff + (vmaddr - segment.vmaddr);
            if offset > u64::MAX || offset > usize::MAX {
                Err(MachOError::AddressOverflow)
            } else {
                Ok(offset as usize)
            }
        } else {
            file_offset_from(segments, from + 1, vmaddr, end)
        }
    }
}

impl ImageModel {
    /// The file offset of the `size` bytes at `vmaddr`.
    pub open spec fn file_offset(self, vmaddr: u64, size: int) -> Result<usize, MachOError> {
        if vmaddr + size > u64::MAX {
            Err(MachOError::AddressOverflow)
        } else {
            file_offset_from(self.segments, 0, vmaddr, vmaddr + size)
        }
    }

    /// Whether the image is as it is read from its file: its segments are those that the file lists.
    pub open spec fn is_read(self) -> bool {
        lists_segments(self.data, self.segments) && self.segments.len() <= usize::MAX
    }

    /// The `size` bytes at `vmaddr`.
    pub open spec fn bytes(self, vmaddr: u64, size: int) -> Result<Seq<u8>, MachOError> {
        match self.file_offset(vmaddr, size) {
            Err(e) => Err(e),
            Ok(offset) => if offset + size > self.data.len() {
                Err(MachOError::MappedOutsideFile)
            } else {
                Ok(self.data.subrange(offset as int, offset + size))
            },
        }
    }

    /// Whether a segment holds `vmaddr`.
    pub open spec fn contains(self, vmaddr: u64) -> bool {
        exists|i: int|
            0 <= i < self.segments.len() && (#[trigger] self.segments[i]).vmaddr <= vmaddr
                && vmaddr - self.segments[i].vmaddr < self.segments[i].vmsize
    }

    /// The chained and the classic fixups, where the load commands are `commands`.
    pub open spec fn fixups_by(self, commands: Seq<CommandFact>) -> Result<
        Seq<FixupModel>,
        MachOError,
    > {
        match chained_blob(self.data, commands, 0, None) {
            Err(e) => Err(e),
            Ok(blob) => match (match blob {
                None => Ok(Seq::empty()),
                Some(blob) => chained_fixups_of(self, blob),
            }) {
                Err(e) => Err(e),
                Ok(chained) => classic_from(self, commands, 0, chained),
            },
        }
    }

    /// What of the chained fixups is passed over, where the load commands are `commands`.
    pub open spec fn unsupported_by(self, commands: Seq<CommandFact>) -> Seq<Unsupported> {
        match chained_blob(self.data, commands, 0, None) {
            Ok(Some(blob)) => unsupported_in(blob, self.segments.len() as int),
            _ => Seq::empty(),
        }
    }

    /// All fixups of the image.
    pub open spec fn all_fixups(self) -> Result<Seq<FixupModel>, MachOError> {
        match parsed_commands(self.data) {
            None => Err(MachOError::CommandsUnreadable),
            Some(commands) => self.fixups_by(commands),
        }
    }
}

/// The chained fixups of a file: what the last command that locates them points at, and nothing
/// where that lies outside the file.
pub open spec fn chained_blob(
    data: Seq<u8>,
    commands: Seq<CommandFact>,
    from: int,
    found: Option<Seq<u8>>,
) -> Result<Option<Seq<u8>>, MachOError>
    decreases commands.len() - from,
{
    if from >= commands.len() {
        Ok(found)
    } else if commands[from].cmd != LC_DYLD_CHAINED_FIXUPS {
        chained_blob(data, commands, from + 1, found)
    } else {
        match commands[from].kind {
            None => Err(MachOError::CommandsUnreadable),
            Some(CommandKind::LinkeditData(offset, size)) => chained_blob(
                data,
                commands,
                from + 1,
                if offset + size <= data.len() {
                    Some(data.subrange(offset as int, offset + size))
                } else {
                    None
                },
            ),
            Some(_) => chained_blob(data, commands, from + 1, found),
        }
    }
}

/// Rebases at the locations from `from` on, each to the address that the file holds there.
pub open spec fn rebased_from(
    image: ImageModel,
    locations: Seq<u64>,
    from: int,
    done: Seq<FixupModel>,
) -> Result<Seq<FixupModel>, MachOError>
    decreases locations.len() - from,
{
    if from >= locations.len() {
        Ok(done)
    } else {
        match image.bytes(locations[from], 8) {
            Err(e) => Err(e),
            Ok(bytes) => rebased_from(
                image,
                locations,
                from + 1,
                done.push(
                    FixupModel {
                        location: locations[from],
                        target: TargetModel::Rebase(u64_at(bytes, 0)),
                    },
                ),
            ),
        }
    }
}

/// The fixups of a rebase stream behind those of `done`.
pub open spec fn with_rebases(image: ImageModel, off: u32, size: u32, done: Seq<FixupModel>) -> Result<
    Seq<FixupModel>,
    MachOError,
> {
    if size == 0 {
        Ok(done)
    } else if off + size > image.data.len() {
        Err(MachOError::StreamOutsideFile)
    } else {
        match rebases_from(
            image.data.subrange(off as int, off + size),
            image.segments,
            0,
            0,
            Seq::empty(),
        ) {
            Err(e) => Err(e),
            Ok(locations) => rebased_from(image, locations, 0, done),
        }
    }
}

/// The fixups of a bind stream behind those of `done`.
pub open spec fn with_binds(image: ImageModel, off: u32, size: u32, done: Seq<FixupModel>) -> Result<
    Seq<FixupModel>,
    MachOError,
> {
    if size == 0 {
        Ok(done)
    } else if off + size > image.data.len() {
        Err(MachOError::StreamOutsideFile)
    } else {
        match binds_of(image.data.subrange(off as int, off + size), image.segments) {
            Err(e) => Err(e),
            Ok(binds) => Ok(done + binds),
        }
    }
}

/// The fixups of one `LC_DYLD_INFO` command behind those of `done`.
pub open spec fn with_dyld_info(image: ImageModel, info: [u32; 8], done: Seq<FixupModel>) -> Result<
    Seq<FixupModel>,
    MachOError,
> {
    match with_rebases(image, info[0], info[1], done) {
        Err(e) => Err(e),
        Ok(rebased) => match with_binds(image, info[2], info[3], rebased) {
            Err(e) => Err(e),
            Ok(bound) => match with_binds(
                image,
                info[4],
                info[5],
                bound,
            ) {
                Err(e) => Err(e),
                Ok(weak) => with_binds(image, info[6], info[7], weak),
            },
        },
    }
}

/// The classic fixups of the commands from `from` on behind those of `done`.
pub open spec fn classic_from(
    image: ImageModel,
    commands: Seq<CommandFact>,
    from: int,
    done: Seq<FixupModel>,
) -> Result<Seq<FixupModel>, MachOError>
    decreases commands.len() - from,
{
    if from >= commands.len() {
        Ok(done)
    } else {
        match commands[from].kind {
            None => Err(MachOError::CommandsUnreadable),
            Some(CommandKind::DyldInfo(info)) => match with_dyld_info(image, info, done) {
                Err(e) => Err(e),
                Ok(next) => classic_from(image, commands, from + 1, next),
            },
            Some(_) => classic_from(image, commands, from + 1, done),
        }
    }
}

/// The bound symbols of the fixups inside `start..end`, with their locations.
pub open spec fn bindings_between(fixups: Seq<FixupModel>, start: u64, end: u64) -> Seq<
    (u64, Seq<char>),
>
    decreases fixups.len(),
{
    if fixups.len() == 0 {
        Seq::empty()
    } else {
        let rest = bindings_between(fixups.drop_last(), start, end);
        let last = fixups.last();
        match last.target {
            TargetModel::Bind(Some(symbol)) => if start <= last.location < end {
                rest.push((last.location, symbol))
            } else {
                rest
            },
            _ => rest,
        }
    }
}

/// The address that the first fixup of `location` from `from` on writes there.
pub open spec fn pointer_from(
    image: ImageModel,
    fixups: Seq<FixupModel>,
    from: int,
    location: u64,
) -> Result<u64, MachOError>
    decreases fixups.len() - from,
{
    if from >= fixups.len() {
        Err(MachOError::NoFixup(location))
    } else if fixups[from].location != location {
        pointer_from(image, fixups, from + 1, location)
    } else {
        match fixups[from].target {
            TargetModel::Bind(_) => Err(MachOError::BindOutsideImage(location)),
            TargetModel::Rebase(target) => if image.contains(target) {
                Ok(target)
            } else {
                Err(MachOError::TargetOutsideImage(target))
            },
        }
    }
}

/// The address of the first `__LINKEDIT` segment from `from` on.
pub open spec fn linkedit_from(segments: Seq<Segment>, from: int) -> Result<u64, MachOError>
    decreases segments.len() - from,
{
    if from >= segments.len() {
        Err(MachOError::NoLinkedit)
    } else if segments[from].name@ == LINKEDIT_NAME@ {
        Ok(segments[from].vmaddr)
    } else {
        linkedit_from(segments, from + 1)
    }
}

/// Read-only view shared by Mach-O metadata and transformation code.
pub struct MachOImage<'data> {
    pub data: &'data [u8],
    pub cpu_type: u32,
    pub cpu_subtype: u32,
    pub segments: Vec<Segment>,
    pub preferred_base: u64,
}

impl<'data> View for MachOImage<'data> {
    type V = ImageModel;

    open spec fn view(&self) -> ImageModel {
        ImageModel {
            data: self.data@,
            cpu_type: self.cpu_type,
            cpu_subtype: self.cpu_subtype,
            segments: self.segments@,
            preferred_base: self.preferred_base,
        }
    }
}

/// The least address at which the start of the file is mapped.
pub fn find_preferred_base(segments: &[Segment]) -> (r: Option<u64>)
    ensures
        match r {
            Some(base) => is_preferred_base(segments@, base),
            None => !has_preferred_base(segments@),
        },
{
    let mut best: Option<u64> = None;
    let mut i: usize = 0;
    while i < segments.len()
        invariant
            i <= segments@.len(),
            match best {
                Some(base) => is_preferred_base(segments@.subrange(0, i as int), base),
                None => !has_preferred_base(segments@.subrange(0, i as int)),
            },
        decreases segments@.len() - i,
    {
        let ghost old_best = best;
        let segment: &Segment = &segments[i];
        if segment.fileoff == 0 && segment.filesize != 0 {
            best =
            match best {
                Some(base) => if base <= segment.vmaddr {
                    Some(base)
                } else {
                    Some(segment.vmaddr)
                },
                None => Some(segment.vmaddr),
            };
        }
        proof {
            let head = segments@.subrange(0, i as int);
            let more = segments@.subrange(0, i + 1);
            assert(more.drop_last() =~= head);
            assert(more[i as int] == segments@[i as int]);
            assert forall|j: int| 0 <= j < i implies #[trigger] more[j] == head[j] by {}
            match old_best {
                Some(base) => {
                    let j = choose|j: int|
                        0 <= j < head.len() && maps_file_start(#[trigger] head[j])
                            && head[j].vmaddr == base;
                    assert(maps_file_start(more[j]));
                },
                None => {
                    assert forall|j: int| 0 <= j < i implies !maps_file_start(
                        #[trigger] more[j],
                    ) by {
                        assert(!maps_file_start(head[j]));
                    }
                },
            }
        }
        i = i + 1;
    }
    assert(segments@.subrange(0, segments@.len() as int) =~= segments@);
    best
}

/// Whether every load command can be read.
fn check_readable(commands: &[CommandFact]) -> (r: bool)
    ensures
        r == all_readable(commands@),
{
    let mut i: usize = 0;
    while i < commands.len()
        invariant
            i <= commands@.len(),
            forall|j: int| 0 <= j < i ==> (#[trigger] commands@[j]).kind is Some,
        decreases commands@.len() - i,
    {
        if commands[i].kind.is_none() {
            return false;
        }
        i = i + 1;
    }
    true
}

/// The platforms that an image names, where all its load commands can be read.
pub fn find_platforms(commands: &[CommandFact], versions: &[Option<u32>]) -> (r: Option<Vec<u32>>)
    ensures
        match r {
            Some(v) => all_readable(commands@) && v@ == named_platforms(versions@),
            None => !all_readable(commands@),
        },
{
    if !check_readable(commands) {
        return None;
    }
    let mut platforms: Vec<u32> = Vec::new();
    let mut i: usize = 0;
    while i < versions.len()
        invariant
            i <= versions@.len(),
            platforms@ == named_platforms(versions@.subrange(0, i as int)),
        decreases versions@.len() - i,
    {
        assert(versions@.subrange(0, i + 1).drop_last() =~= versions@.subrange(0, i as int));
        match versions[i] {
            Some(platform) => platforms.push(platform),
            None => {},
        }
        i = i + 1;
    }
    assert(versions@.subrange(0, versions@.len() as int) =~= versions@);
    Some(platforms)
}

impl<'data> MachOImage<'data> {
    /// The image with the facts that were found in its bytes.
    pub fn with_facts(data: &'data [u8], facts: MachOFacts) -> (r: Result<Self, MachOError>)
        ensures
            match r {
                Ok(image) => image@ == (ImageModel {
                    data: data@,
                    cpu_type: facts.cpu_type,
                    cpu_subtype: facts.cpu_subtype,
                    segments: facts.segments@,
                    preferred_base: image.preferred_base,
                }) && is_preferred_base(facts.segments@, image.preferred_base),
                Err(e) => e == MachOError::NoImageBase && !has_preferred_base(facts.segments@),
            },
    {
        match find_preferred_base(&facts.segments) {
            Some(preferred_base) => Ok(
                MachOImage {
                    data,
                    cpu_type: facts.cpu_type,
                    cpu_subtype: facts.cpu_subtype,
                    segments: facts.segments,
                    preferred_base,
                },
            ),
            None => Err(MachOError::NoImageBase),
        }
    }

    /// Parse a thin 64-bit Mach-O image.
    pub fn parse(data: &'data [u8]) -> (r: Result<Self, MachOError>)
        ensures
            match r {
                Ok(image) => file_kind(data@) == Some(ImageKind::MachO64) && (parsed_facts(data@) matches Some(facts)
                    && image@.data == data@ && image@.cpu_type == facts.cpu_type
                    && image@.cpu_subtype == facts.cpu_subtype && image@.segments
                    == facts.segments && is_preferred_base(
                    facts.segments,
                    image@.preferred_base,
                )),
                Err(e) => match file_kind(data@) {
                    None => e == MachOError::UnknownKind,
                    Some(ImageKind::MachO64) => match parsed_facts(data@) {
                        None => e == MachOError::ParseFailed,
                        Some(facts) => e == MachOError::NoImageBase && !has_preferred_base(
                            facts.segments,
                        ),
                    },
                    Some(_) => e == MachOError::NotThin64,
                },
            },
            match r {
                Ok(image) => macho_image(data@) == Ok::<ImageModel, MachOError>(image@)
                    && image@.is_read(),
                Err(e) => macho_image(data@) == Err::<ImageModel, MachOError>(e),
            },
    {
        match read_kind(data) {
            None => return Err(MachOError::UnknownKind),
            Some(ImageKind::MachO64) => {},
            Some(_) => return Err(MachOError::NotThin64),
        }
        match read_facts(data) {
            Some(facts) => {
                let ghost segments = facts.segments@;
                let r: Result<Self, MachOError> = MachOImage::with_facts(data, facts);
                proof {
                    if r is Ok {
                        let image = r->Ok_0;
                        let base = choose|base: u64| is_preferred_base(segments, base);
                        assert(is_preferred_base(segments, image.preferred_base));
                        assert(is_preferred_base(segments, base));
                        assert(base == image.preferred_base);
                        assert(has_preferred_base(segments));
                        assert(image@.segments.len() == image.segments.len());
                    }
                }
                r
            },
            None => Err(MachOError::ParseFailed),
        }
    }

    pub fn cpu_type(&self) -> (r: u32)
        ensures
            r == self@.cpu_type,
    {
        self.cpu_type
    }

    pub fn cpu_subtype(&self) -> (r: u32)
        ensures
            r == self@.cpu_subtype,
    {
        self.cpu_subtype
    }

    /// The platforms that the image was built for.
    pub fn platforms(&self) -> (r: Result<Vec<u32>, MachOError>)
        ensures
            match (parsed_commands(self@.data), parsed_build_versions(self@.data), r) {
                (Some(commands), Some(versions), Ok(v)) => all_readable(commands) && v@
                    == named_platforms(versions),
                (Some(commands), Some(versions), Err(e)) => e == MachOError::CommandsUnreadable
                    && !all_readable(commands),
                (_, _, r) => r == Err::<Vec<u32>, MachOError>(MachOError::CommandsUnreadable),
            },
    {
        match (read_commands(self.data), read_build_versions(self.data)) {
            (Some(commands), Some(versions)) => match find_platforms(&commands, &versions) {
                Some(platforms) => Ok(platforms),
                None => Err(MachOError::CommandsUnreadable),
            },
            _ => Err(MachOError::CommandsUnreadable),
        }
    }

    pub fn segments(&self) -> (r: &[Segment])
        ensures
            r@ == self@.segments,
    {
        &self.segments
    }

    pub fn preferred_base(&self) -> (r: u64)
        ensures
            r == self@.preferred_base,
    {
        self.preferred_base
    }

    /// The file offset of `size` bytes at `vmaddr`.
    pub fn vm_to_file(&self, vmaddr: u64, size: u64) -> (r: Result<usize, MachOError>)
        ensures
            r == self@.file_offset(vmaddr, size as int),
    {
        let end: u64 = match vmaddr.checked_add(size) {
            Some(end) => end,
            None => return Err(MachOError::AddressOverflow),
        };
        let mut i: usize = 0;
        while i < self.segments.len()
            invariant
                i <= self.segments@.len(),
                end == vmaddr + size,
                file_offset_from(self.segments@, i as int, vmaddr, end as int)
                    == self@.file_offset(vmaddr, size as int),
            decreases self.segments@.len() - i,
        {
            let segment: &Segment = &self.segments[i];
            let file_end: u64 = match segment.vmaddr.checked_add(segment.filesize) {
                Some(file_end) => file_end,
                None => return Err(MachOError::AddressOverflow),
            };
            if vmaddr >= segment.vmaddr && end <= file_end {
                let offset: u64 = match segment.fileoff.checked_add(vmaddr - segment.vmaddr) {
                    Some(offset) => offset,
                    None => return Err(MachOError::AddressOverflow),
                };
                if offset > usize::MAX as u64 {
                    return Err(MachOError::AddressOverflow);
                }
                return Ok(offset as usize);
            }
            i = i + 1;
        }
        Err(MachOError::NotFileBacked { start: vmaddr, end })
    }

    /// The `size` bytes at `vmaddr`.
    pub fn bytes_at(&self, vmaddr: u64, size: usize) -> (r: Result<&'data [u8], MachOError>)
        ensures
            match r {
                Ok(bytes) => self@.bytes(vmaddr, size as int) == Ok::<Seq<u8>, MachOError>(bytes@)
                    && bytes@.len() == size,
                Err(e) => self@.bytes(vmaddr, size as int) == Err::<Seq<u8>, MachOError>(e),
            },
    {
        let offset: usize = self.vm_to_file(vmaddr, size as u64)?;
        let data: &'data [u8] = self.data;
        if offset > data.len() || size > data.len() - offset {
            return Err(MachOError::MappedOutsideFile);
        }
        Ok(&data[offset..offset + size])
    }

    /// The file range of the section `name`.
    pub fn section_file_range(&self, name: &str) -> (r: Result<Range<usize>, MachOError>)
        ensures
            match (parsed_section(self@.data, name@), r) {
                (None, Err(e)) => e == MachOError::NoSection,
                (Some(None), Err(e)) => e == MachOError::SectionNotFileBacked,
                (Some(Some((offset, size))), Err(e)) => if offset > usize::MAX || size > usize::MAX
                    || offset + size > usize::MAX {
                    e == MachOError::SectionTooLarge
                } else {
                    e == MachOError::SectionOutsideFile && offset + size > self@.data.len()
                },
                (Some(Some((offset, size))), Ok(range)) => range.start == offset && range.end
                    == offset + size && offset + size <= self@.data.len(),
                _ => false,
            },
    {
        match read_section(self.data, name) {
            None => Err(MachOError::NoSection),
            Some(None) => Err(MachOError::SectionNotFileBacked),
            Some(Some((offset, size))) => {
                if offset > usize::MAX as u64 || size > usize::MAX as u64 {
                    return Err(MachOError::SectionTooLarge);
                }
                match (offset as usize).checked_add(size as usize) {
                    None => Err(MachOError::SectionTooLarge),
                    Some(end) => if end > self.data.len() {
                        Err(MachOError::SectionOutsideFile)
                    } else {
                        Ok(offset as usize..end)
                    },
                }
            },
        }
    }

    /// The address of the first `__LINKEDIT` segment.
    pub fn linkedit_vmaddr(&self) -> (r: Result<u64, MachOError>)
        ensures
            r == linkedit_from(self@.segments, 0),
    {
        let mut i: usize = 0;
        while i < self.segments.len()
            invariant
                i <= self.segments@.len(),
                linkedit_from(self@.segments, i as int) == linkedit_from(self@.segments, 0),
            decreases self.segments@.len() - i,
        {
            let name: &[u8] = &self.segments[i].name;
            assert(name@.subrange(0, 16) =~= self@.segments[i as int].name@);
            if name_matches(name, 0, &LINKEDIT_NAME) {
                return Ok(self.segments[i].vmaddr);
            }
            i = i + 1;
        }
        Err(MachOError::NoLinkedit)
    }

    /// Whether a segment holds `vmaddr`.
    pub fn contains_vmaddr(&self, vmaddr: u64) -> (r: bool)
        ensures
            r == self@.contains(vmaddr),
    {
        let mut i: usize = 0;
        while i < self.segments.len()
            invariant
                i <= self.segments@.len(),
                forall|j: int|
                    0 <= j < i ==> !((#[trigger] self@.segments[j]).vmaddr <= vmaddr && vmaddr
                        - self@.segments[j].vmaddr < self@.segments[j].vmsize),
            decreases self.segments@.len() - i,
        {
            let segment: &Segment = &self.segments[i];
            if vmaddr >= segment.vmaddr && vmaddr - segment.vmaddr < segment.vmsize {
                assert(self@.segments[i as int] == *segment);
                return true;
            }
            i = i + 1;
        }
        false
    }

    /// Append the rebases of a stream.
    fn push_rebases(&self, off: u32, size: u32, fixups: &mut Vec<Fixup>) -> (r: Result<
        (),
        MachOError,
    >)
        ensures
            match r {
                Ok(_) => with_rebases(self@, off, size, fixup_models(old(fixups)@)) == Ok::<
                    Seq<FixupModel>,
                    MachOError,
                >(fixup_models(final(fixups)@)),
                Err(e) => with_rebases(self@, off, size, fixup_models(old(fixups)@)) == Err::<
                    Seq<FixupModel>,
                    MachOError,
                >(e),
            },
    {
        if size == 0 {
            return Ok(());
        }
        if off as u64 + size as u64 > self.data.len() as u64 {
            return Err(MachOError::StreamOutsideFile);
        }
        assert(self.data.len() <= usize::MAX);
        let stream: &[u8] = &self.data[off as usize..off as usize + size as usize];
        let locations: Vec<u64> = parse_rebase_opcodes(stream, &self.segments)?;
        let ghost all = rebased_from(self@, locations@, 0, fixup_models(fixups@));
        let mut i: usize = 0;
        while i < locations.len()
            invariant
                i <= locations@.len(),
                all == with_rebases(self@, off, size, fixup_models(old(fixups)@)),
                rebased_from(self@, locations@, i as int, fixup_models(fixups@)) == all,
            decreases locations@.len() - i,
        {
            let bytes: &[u8] = self.bytes_at(locations[i], 8)?;
            let ghost before = fixups@;
            fixups.push(
                Fixup { location: locations[i], target: FixupTarget::Rebase(get_u64(bytes, 0)) },
            );
            assert(fixup_models(fixups@) =~= fixup_models(before).push(fixups@.last()@));
            i = i + 1;
        }
        Ok(())
    }

    /// Append the binds of a stream.
    fn push_binds(&self, off: u32, size: u32, fixups: &mut Vec<Fixup>) -> (r: Result<
        (),
        MachOError,
    >)
        ensures
            match r {
                Ok(_) => with_binds(self@, off, size, fixup_models(old(fixups)@)) == Ok::<
                    Seq<FixupModel>,
                    MachOError,
                >(fixup_models(final(fixups)@)),
                Err(e) => with_binds(self@, off, size, fixup_models(old(fixups)@)) == Err::<
                    Seq<FixupModel>,
                    MachOError,
                >(e),
            },
    {
        if size == 0 {
            return Ok(());
        }
        if off as u64 + size as u64 > self.data.len() as u64 {
            return Err(MachOError::StreamOutsideFile);
        }
        assert(self.data.len() <= usize::MAX);
        let stream: &[u8] = &self.data[off as usize..off as usize + size as usize];
        let mut binds: Vec<Fixup> = parse_bind_opcodes(stream, &self.segments)?;
        let ghost before = fixups@;
        let ghost named = binds@;
        fixups.append(&mut binds);
        assert(fixup_models(fixups@) =~= fixup_models(before) + fixup_models(named));
        Ok(())
    }

    /// Append the fixups of a dyld-info command.
    fn push_dyld_info(&self, info: &[u32; 8], fixups: &mut Vec<Fixup>) -> (r: Result<
        (),
        MachOError,
    >)
        ensures
            match r {
                Ok(_) => with_dyld_info(self@, *info, fixup_models(old(fixups)@)) == Ok::<
                    Seq<FixupModel>,
                    MachOError,
                >(fixup_models(final(fixups)@)),
                Err(e) => with_dyld_info(self@, *info, fixup_models(old(fixups)@)) == Err::<
                    Seq<FixupModel>,
                    MachOError,
                >(e),
            },
    {
        self.push_rebases(info[0], info[1], fixups)?;
        self.push_binds(info[2], info[3], fixups)?;
        self.push_binds(info[4], info[5], fixups)?;
        self.push_binds(info[6], info[7], fixups)
    }

    /// Where the chained fixups that the commands locate stand.
    fn find_chained(&self, commands: &[CommandFact]) -> (r: Result<
        Option<(usize, usize)>,
        MachOError,
    >)
        ensures
            match r {
                Err(e) => chained_blob(self@.data, commands@, 0, None) == Err::<
                    Option<Seq<u8>>,
                    MachOError,
                >(e),
                Ok(None) => chained_blob(self@.data, commands@, 0, None) == Ok::<
                    Option<Seq<u8>>,
                    MachOError,
                >(None),
                Ok(Some((start, end))) => start <= end <= self@.data.len() && chained_blob(
                    self@.data,
                    commands@,
                    0,
                    None,
                ) == Ok::<Option<Seq<u8>>, MachOError>(
                    Some(self@.data.subrange(start as int, end as int)),
                ),
            },
    {
        let mut found: Option<(usize, usize)> = None;
        let mut i: usize = 0;
        assert(self.data.len() <= usize::MAX);
        while i < commands.len()
            invariant
                i <= commands@.len(),
                self@.data.len() <= usize::MAX,
                found matches Some((start, end)) ==> start <= end <= self@.data.len(),
                chained_blob(
                    self@.data,
                    commands@,
                    i as int,
                    match found {
                        None => None,
                        Some((start, end)) => Some(
                            self@.data.subrange(start as int, end as int),
                        ),
                    },
                ) == chained_blob(self@.data, commands@, 0, None),
            decreases commands@.len() - i,
        {
            if commands[i].cmd == LC_DYLD_CHAINED_FIXUPS {
                match commands[i].kind {
                    None => return Err(MachOError::CommandsUnreadable),
                    Some(CommandKind::LinkeditData(offset, size)) => {
                        if offset as u64 + size as u64 <= self.data.len() as u64 {
                            found = Some((offset as usize, offset as usize + size as usize));
                        } else {
                            found = None;
                        }
                    },
                    Some(_) => {},
                }
            }
            i = i + 1;
        }
        Ok(found)
    }

    /// The chained fixups that the commands locate.
    fn chained_fixups(&self, commands: &[CommandFact]) -> (r: Result<Vec<Fixup>, MachOError>)
        ensures
            match (chained_blob(self@.data, commands@, 0, None), r) {
                (Err(e), Err(f)) => e == f,
                (Ok(None), Ok(v)) => v@.len() == 0,
                (Ok(Some(blob)), Ok(v)) => chained_fixups_of(self@, blob) == Ok::<
                    Seq<FixupModel>,
                    MachOError,
                >(fixup_models(v@)),
                (Ok(Some(blob)), Err(e)) => chained_fixups_of(self@, blob) == Err::<
                    Seq<FixupModel>,
                    MachOError,
                >(e),
                _ => false,
            },
    {
        match self.find_chained(commands)? {
            Some((start, end)) => read_chained_fixups(self, &self.data[start..end]),
            None => Ok(Vec::new()),
        }
    }

    /// What of the chained fixups that the commands locate is passed over.
    pub fn unsupported_with(&self, commands: &[CommandFact]) -> (r: Vec<Unsupported>)
        ensures
            r@ == self@.unsupported_by(commands@),
    {
        match self.find_chained(commands) {
            Ok(Some((start, end))) => find_unsupported(
                &self.data[start..end],
                self.segments.len(),
            ),
            _ => Vec::new(),
        }
    }

    /// What of the chained fixups is passed over.
    pub fn unsupported(&self) -> (r: Vec<Unsupported>)
        ensures
            r@ == match parsed_commands(self@.data) {
                Some(commands) => self@.unsupported_by(commands),
                None => Seq::empty(),
            },
    {
        match read_commands(self.data) {
            Some(commands) => self.unsupported_with(&commands),
            None => Vec::new(),
        }
    }

    /// The fixups that the load commands `commands` locate: the chained ones, then the classic ones.
    pub fn fixups_with(&self, commands: &[CommandFact]) -> (r: Result<Vec<Fixup>, MachOError>)
        ensures
            match r {
                Ok(v) => self@.fixups_by(commands@) == Ok::<Seq<FixupModel>, MachOError>(
                    fixup_models(v@),
                ),
                Err(e) => self@.fixups_by(commands@) == Err::<Seq<FixupModel>, MachOError>(e),
            },
    {
        let mut fixups: Vec<Fixup> = self.chained_fixups(commands)?;
        assert(fixups@.len() == 0 ==> fixup_models(fixups@) =~= Seq::<FixupModel>::empty());
        let ghost all = self@.fixups_by(commands@);
        let mut i: usize = 0;
        while i < commands.len()
            invariant
                i <= commands@.len(),
                all == self@.fixups_by(commands@),
                classic_from(self@, commands@, i as int, fixup_models(fixups@)) == all,
            decreases commands@.len() - i,
        {
            match &commands[i].kind {
                None => return Err(MachOError::CommandsUnreadable),
                Some(CommandKind::DyldInfo(info)) => {
                    self.push_dyld_info(info, &mut fixups)?;
                },
                Some(_) => {},
            }
            i = i + 1;
        }
        Ok(fixups)
    }

    /// All fixups of the image: the chained ones, then the classic ones.
    pub fn fixups(&self) -> (r: Result<Vec<Fixup>, MachOError>)
        ensures
            match r {
                Ok(v) => self@.all_fixups() == Ok::<Seq<FixupModel>, MachOError>(
                    fixup_models(v@),
                ),
                Err(e) => self@.all_fixups() == Err::<Seq<FixupModel>, MachOError>(e),
            },
    {
        match read_commands(self.data) {
            Some(commands) => self.fixups_with(&commands),
            None => Err(MachOError::CommandsUnreadable),
        }
    }

    /// The bound symbols inside `range`, with their locations.
    pub fn bindings_in(&self, range: &Range<u64>) -> (r: Result<Vec<(u64, String)>, MachOError>)
        ensures
            match r {
                Ok(v) => self@.all_fixups() matches Ok(fixups) && named_locations(v@)
                    == bindings_between(fixups, range.start, range.end),
                Err(e) => self@.all_fixups() == Err::<Seq<FixupModel>, MachOError>(e),
            },
    {
        let fixups: Vec<Fixup> = self.fixups()?;
        Ok(select_bindings(&fixups, range.start, range.end))
    }

    /// The address that a fixup writes to `location`.
    pub fn rebased_pointer(&self, location: u64) -> (r: Result<u64, MachOError>)
        ensures
            match self@.all_fixups() {
                Ok(fixups) => r == pointer_from(self@, fixups, 0, location),
                Err(e) => r == Err::<u64, MachOError>(e),
            },
    {
        let fixups: Vec<Fixup> = self.fixups()?;
        self.pointer_in(&fixups, location)
    }

    /// The address that the first of `fixups` at `location` writes there.
    pub fn pointer_in(&self, fixups: &[Fixup], location: u64) -> (r: Result<u64, MachOError>)
        ensures
            r == pointer_from(self@, fixup_models(fixups@), 0, location),
    {
        let mut i: usize = 0;
        while i < fixups.len()
            invariant
                i <= fixups@.len(),
                pointer_from(self@, fixup_models(fixups@), i as int, location) == pointer_from(
                    self@,
                    fixup_models(fixups@),
                    0,
                    location,
                ),
            decreases fixups@.len() - i,
        {
            assert(fixup_models(fixups@)[i as int] == fixups@[i as int]@);
            if fixups[i].location == location {
                match &fixups[i].target {
                    FixupTarget::Bind(_) => {
                        return Err(MachOError::BindOutsideImage(location));
                    },
                    FixupTarget::Rebase(target) => {
                        if self.contains_vmaddr(*target) {
                            return Ok(*target);
                        }
                        return Err(MachOError::TargetOutsideImage(*target));
                    },
                }
            }
            i = i + 1;
        }
        Err(MachOError::NoFixup(location))
    }
}

/// Locations with the names bound there, as values.
pub open spec fn named_locations(v: Seq<(u64, String)>) -> Seq<(u64, Seq<char>)> {
    Seq::new(v.len(), |i: int| (v[i].0, v[i].1@))
}

/// The bound symbols of the fixups inside `start..end`, with their locations.
pub fn select_bindings(fixups: &[Fixup], start: u64, end: u64) -> (r: Vec<(u64, String)>)
    ensures
        named_locations(r@) == bindings_between(fixup_models(fixups@), start, end),
{
    let mut out: Vec<(u64, String)> = Vec::new();
    let mut i: usize = 0;
    assert(named_locations(out@) =~= Seq::<(u64, Seq<char>)>::empty());
    while i < fixups.len()
        invariant
            i <= fixups@.len(),
            named_locations(out@) == bindings_between(
                fixup_models(fixups@).subrange(0, i as int),
                start,
                end,
            ),
        decreases fixups@.len() - i,
    {
        let ghost so_far = fixup_models(fixups@).subrange(0, i as int);
        let ghost more = fixup_models(fixups@).subrange(0, i + 1);
        assert(more.drop_last() =~= so_far);
        assert(more.last() == fixups@[i as int]@);
        let ghost before = out@;
        let fixup: &Fixup = &fixups[i];
        match &fixup.target {
            FixupTarget::Bind(Some(symbol)) => {
                if start <= fixup.location && fixup.location < end {
                    out.push((fixup.location, symbol.clone()));
                    assert(named_locations(out@) =~= named_locations(before).push(
                        (fixup.location, symbol@),
                    ));
                }
            },
            _ => {},
        }
        i = i + 1;
    }
    assert(fixup_models(fixups@).subrange(0, fixups@.len() as int) =~= fixup_models(fixups@));
    out
}

} // verus!
