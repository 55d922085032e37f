//! One metadata record.

use vstd::prelude::*;
use vstd::utf8::*;
use crate::bytes::{copy_bytes, find_zero, get_u16, get_u32, get_u64, u16_at, u32_at, u64_at};
use crate::text::utf8_string;
use crate::util::macho::format::MachOError;
use crate::util::macho::image::named_locations;
use crate::util::msvc::{
    materialized, Image, ImageView, MemberPointerDecoder, MemberTarget, TargetView,
};
use crate::util::objfile::ImageArch;
use crate::text::{string_from_chars, to_chars};

verus! {

pub const KIND_PAD: u8 = 0;

pub const KIND_HEADER: u8 = 1;

pub const KIND_IMPORT: u8 = 2;

pub const KIND_EXPORT: u8 = 3;

pub const KIND_HOOK_FN: u8 = 4;

pub const KIND_HOOK_MEM: u8 = 5;

pub const KIND_HOOK_NAME: u8 = 6;

pub const KIND_HOOK_MEM_EXT: u8 = 7;

/// Flag of an optional import, and of a deferred export.
pub const SERVICE_FLAG: u8 = 1;

/// Size of an import or export record.
pub const SERVICE_RECORD: usize = 80;

/// Size of a function hook record.
pub const HOOK_FN_RECORD: usize = 24;

/// Size of a member hook record without its names.
pub const HOOK_MEM_RECORD: usize = 32;

/// Size of an extended member hook record without its names.
pub const HOOK_MEM_EXT_RECORD: usize = 24;

/// Size of a named hook record without its name.
pub const HOOK_NAME_RECORD: usize = 16;

/// Why metadata is refused. The number is the record's offset in its section.
#[derive(Clone, Copy, Debug, PartialEq, Eq, Structural)]
pub enum MetaError {
    /// The file does not parse.
    BadObject,
    /// There is no metadata section: this is no mod library.
    NoSection,
    /// The metadata section cannot be read.
    BadSection,
    /// The metadata section does not fit the address space.
    SectionRange,
    /// The Mach-O fixups cannot be read.
    BadFixups(MachOError),
    /// Bytes other than zero behind the last record.
    Trailing(usize),
    /// A record size, and its value, that is not a multiple of 8 or does not fit.
    BadSize(usize, u16),
    /// Flags that the record kind does not have: offset, kind and flags.
    BadFlags(usize, u8, u8),
    /// A record that is too short for its kind.
    Truncated(usize),
    /// A service id without an end.
    UnterminatedId(usize),
    /// A service id without a character.
    EmptyId(usize),
    /// A service id that is not UTF-8.
    BadId(usize),
    /// A string without an end.
    UnterminatedString(usize),
    /// A string that is not UTF-8.
    BadString(usize),
    /// An extended member pointer of a size that there is none of.
    BadPointerSize(usize, u32),
    /// Not exactly one header record, and how many there are.
    HeaderCount(usize),
}

/// The head of a record.
#[derive(Clone, Copy, Debug, PartialEq, Eq, Structural)]
pub struct RecordHeader {
    pub size: u16,
    pub kind: u8,
    pub flags: u8,
}

/// One static service import declared by a mod entry library.
#[derive(Clone, Debug, PartialEq, Eq, PartialOrd, Ord)]
pub struct Import {
    pub service_id: String,
    pub major: u16,
    pub min_minor: u16,
    pub optional: bool,
}

/// One static service export declared by a mod entry library.
#[derive(Clone, Debug, PartialEq, Eq, PartialOrd, Ord)]
pub struct Export {
    pub service_id: String,
    pub major: u16,
    pub minor: u16,
    pub deferred: bool,
}

/// A decoded static hook target.
#[derive(Clone, Debug)]
pub enum HookTarget {
    Fn {
        symbol: Option<String>,
    },
    Mem {
        vtable: String,
        display: String,
        symbol: Option<String>,
        virtual_slot: Option<u64>,
    },
    Name {
        name: String,
    },
}

/// A service with its versions and its flag, as a plain value.
pub struct ServiceView {
    pub service_id: Seq<char>,
    pub major: u16,
    pub minor: u16,
    pub flag: bool,
}

/// A hook as a plain value.
pub enum HookView {
    Fn {
        symbol: Option<Seq<char>>,
    },
    Mem {
        vtable: Seq<char>,
        display: Seq<char>,
        symbol: Option<Seq<char>>,
        virtual_slot: Option<u64>,
    },
    Name {
        name: Seq<char>,
    },
}

impl View for Import {
    type V = ServiceView;

    open spec fn view(&self) -> ServiceView {
        ServiceView {
            service_id: self.service_id@,
            major: self.major,
            minor: self.min_minor,
            flag: self.optional,
        }
    }
}

impl View for Export {
    type V = ServiceView;

    open spec fn view(&self) -> ServiceView {
        ServiceView {
            service_id: self.service_id@,
            major: self.major,
            minor: self.minor,
            flag: self.deferred,
        }
    }
}

/// The text of an optional string.
pub open spec fn text_of(s: Option<String>) -> Option<Seq<char>> {
    match s {
        Some(s) => Some(s@),
        None => None,
    }
}

impl View for HookTarget {
    type V = HookView;

    open spec fn view(&self) -> HookView {
        match self {
            HookTarget::Fn { symbol } => HookView::Fn { symbol: text_of(*symbol) },
            HookTarget::Mem { vtable, display, symbol, virtual_slot } => HookView::Mem {
                vtable: vtable@,
                display: display@,
                symbol: text_of(*symbol),
                virtual_slot: *virtual_slot,
            },
            HookTarget::Name { name } => HookView::Name { name: name@ },
        }
    }
}

/// A record.
pub enum Record {
    /// A record without contents, or of a kind that is not known.
    Skipped,
    Header {
        abi_version: u32,
    },
    Import(Import),
    Export(Export),
    Hook(HookTarget),
}

/// A record as a plain value.
pub enum RecordView {
    Skipped,
    Header {
        abi_version: u32,
    },
    Import(ServiceView),
    Export(ServiceView),
    Hook(HookView),
}

impl View for Record {
    type V = RecordView;

    open spec fn view(&self) -> RecordView {
        match self {
            Record::Skipped => RecordView::Skipped,
            Record::Header { abi_version } => RecordView::Header { abi_version: *abi_version },
            Record::Import(import) => RecordView::Import(import@),
            Record::Export(export) => RecordView::Export(export@),
            Record::Hook(hook) => RecordView::Hook(hook@),
        }
    }
}

/// What the targets of hooks are looked up in.
pub struct Lookup {
    /// The names that the loader binds, with their addresses.
    pub binds: Vec<(u64, String)>,
    pub image: Image,
    pub decoder: MemberPointerDecoder,
}

/// What the targets of hooks are looked up in, as a plain value.
pub struct LookupView {
    pub binds: Seq<(u64, Seq<char>)>,
    pub image: ImageView,
    pub slots: Seq<(u64, Seq<char>)>,
}

impl View for Lookup {
    type V = LookupView;

    open spec fn view(&self) -> LookupView {
        LookupView {
            binds: named_locations(self.binds@),
            image: self.image@,
            slots: self.decoder.slots(),
        }
    }
}

/// The name that is bound at an address: the first, where there are several.
pub open spec fn bound_at(binds: Seq<(u64, Seq<char>)>, address: u64, i: int) -> Option<Seq<char>>
    decreases binds.len() - i,
{
    if i < 0 || i >= binds.len() {
        None
    } else if binds[i].0 == address {
        Some(binds[i].1)
    } else {
        bound_at(binds, address, i + 1)
    }
}

/// Find the name that is bound at an address.
pub fn find_bound(binds: &[(u64, String)], address: u64) -> (r: Option<String>)
    ensures
        text_of(r) == bound_at(named_locations(binds@), address, 0),
{
    let ghost all = named_locations(binds@);
    let mut i: usize = 0;
    while i < binds.len()
        invariant
            i <= binds@.len(),
            all == named_locations(binds@),
            bound_at(all, address, i as int) == bound_at(all, address, 0),
        decreases binds@.len() - i,
    {
        assert(all[i as int] == (binds@[i as int].0, binds@[i as int].1@));
        if binds[i].0 == address {
            return Some(string_from_chars(&to_chars(&binds[i].1)));
        }
        i = i + 1;
    }
    None
}

/// Whether the flags are ones that the record kind has.
pub open spec fn flags_fit(header: RecordHeader, allowed: u8) -> bool {
    header.flags & !allowed == 0
}

/// Refuse flags that the record kind does not have.
pub fn check_flags(header: &RecordHeader, allowed: u8, offset: usize) -> (r: Result<(), MetaError>)
    ensures
        r == if flags_fit(*header, allowed) {
            Ok::<(), MetaError>(())
        } else {
            Err(MetaError::BadFlags(offset, header.kind, header.flags & !allowed))
        },
{
    let unknown: u8 = header.flags & !allowed;
    if unknown != 0 {
        return Err(MetaError::BadFlags(offset, header.kind, unknown));
    }
    Ok(())
}

/// The text of a service id field.
pub open spec fn service_id_of(buffer: Seq<u8>, offset: usize) -> Result<Seq<char>, MetaError> {
    match buffer.index_of_first(0u8) {
        None => Err(MetaError::UnterminatedId(offset)),
        Some(len) => if len == 0 {
            Err(MetaError::EmptyId(offset))
        } else if !valid_utf8(buffer.subrange(0, len)) {
            Err(MetaError::BadId(offset))
        } else {
            Ok(decode_utf8(buffer.subrange(0, len)))
        },
    }
}

/// Read a service id field.
pub fn read_service_id(buffer: &[u8], offset: usize) -> (r: Result<String, MetaError>)
    ensures
        match r {
            Ok(id) => service_id_of(buffer@, offset) == Ok::<Seq<char>, MetaError>(id@),
            Err(e) => service_id_of(buffer@, offset) == Err::<Seq<char>, MetaError>(e),
        },
{
    broadcast use encode_utf8_decode_utf8;

    let len: usize = match find_zero(buffer) {
        Some(len) => len,
        None => return Err(MetaError::UnterminatedId(offset)),
    };
    if len == 0 {
        return Err(MetaError::EmptyId(offset));
    }
    match utf8_string(copy_bytes(&buffer[0..len])) {
        Some(id) => Ok(id),
        None => Err(MetaError::BadId(offset)),
    }
}

/// The string at the start of the bytes, and where the bytes behind it begin.
pub open spec fn cstr_of(buffer: Seq<u8>, offset: usize) -> Result<(Seq<char>, int), MetaError> {
    match buffer.index_of_first(0u8) {
        None => Err(MetaError::UnterminatedString(offset)),
        Some(len) => if !valid_utf8(buffer.subrange(0, len)) {
            Err(MetaError::BadString(offset))
        } else {
            Ok((decode_utf8(buffer.subrange(0, len)), len + 1))
        },
    }
}

/// Read the string at the start of the bytes.
pub fn read_cstr(buffer: &[u8], offset: usize) -> (r: Result<(String, usize), MetaError>)
    ensures
        match r {
            Ok((s, end)) => cstr_of(buffer@, offset) == Ok::<(Seq<char>, int), MetaError>(
                (s@, end as int),
            ) && end <= buffer@.len(),
            Err(e) => cstr_of(buffer@, offset) == Err::<(Seq<char>, int), MetaError>(e),
        },
{
    broadcast use encode_utf8_decode_utf8;

    let len: usize = match find_zero(buffer) {
        Some(len) => len,
        None => return Err(MetaError::UnterminatedString(offset)),
    };
    proof {
        buffer@.index_of_first_ensures(0u8);
    }
    assert(len < buffer.len());
    match utf8_string(copy_bytes(&buffer[0..len])) {
        Some(s) => Ok((s, len + 1)),
        None => Err(MetaError::BadString(offset)),
    }
}

/// The two strings at the start of the bytes.
pub open spec fn two_strings(buffer: Seq<u8>, offset: usize) -> Result<
    (Seq<char>, Seq<char>),
    MetaError,
> {
    match cstr_of(buffer, offset) {
        Err(e) => Err(e),
        Ok((first, end)) => match cstr_of(buffer.subrange(end, buffer.len() as int), offset) {
            Err(e) => Err(e),
            Ok((second, _)) => Ok((first, second)),
        },
    }
}

fn read_two_strings(buffer: &[u8], offset: usize) -> (r: Result<(String, String), MetaError>)
    ensures
        match r {
            Ok((a, b)) => two_strings(buffer@, offset) == Ok::<(Seq<char>, Seq<char>), MetaError>(
                (a@, b@),
            ),
            Err(e) => two_strings(buffer@, offset) == Err::<(Seq<char>, Seq<char>), MetaError>(e),
        },
{
    let (first, end) = read_cstr(buffer, offset)?;
    let (second, _end) = read_cstr(&buffer[end..buffer.len()], offset)?;
    Ok((first, second))
}

/// The virtual slot of a member pointer of two words. Itanium-style pointers mark it in the second
/// word on ARM and in the first elsewhere; PE images have no such pointers.
pub open spec fn slot_of_pointer(pe: bool, arch: ImageArch, word0: u64, word1: u64) -> Option<u64> {
    if pe {
        None
    } else if arch == ImageArch::Aarch64 || arch == ImageArch::Arm {
        if word1 == 1 {
            Some(word0)
        } else {
            None
        }
    } else if word0 % 2 == 1 && word1 == 0 {
        Some((word0 - 1) as u64)
    } else {
        None
    }
}

/// Find the virtual slot of a member pointer of two words.
pub fn decode_virtual_slot(pe: bool, arch: ImageArch, word0: u64, word1: u64) -> (r: Option<u64>)
    ensures
        r == slot_of_pointer(pe, arch, word0, word1),
{
    if pe {
        return None;
    }
    match arch {
        ImageArch::Aarch64 | ImageArch::Arm => if word1 == 1 {
            Some(word0)
        } else {
            None
        },
        _ => if word0 % 2 == 1 && word1 == 0 {
            Some(word0 - 1)
        } else {
            None
        },
    }
}

/// The service of an import or export record.
pub open spec fn service_of(
    record: Seq<u8>,
    header: RecordHeader,
    offset: usize,
) -> Result<ServiceView, MetaError> {
    if !flags_fit(header, SERVICE_FLAG) {
        Err(MetaError::BadFlags(offset, header.kind, header.flags & !SERVICE_FLAG))
    } else if record.len() < SERVICE_RECORD {
        Err(MetaError::Truncated(offset))
    } else {
        match service_id_of(record.subrange(16, 80), offset) {
            Err(e) => Err(e),
            Ok(service_id) => Ok(
                ServiceView {
                    service_id,
                    major: u16_at(record, 4),
                    minor: u16_at(record, 6),
                    flag: header.flags & SERVICE_FLAG != 0,
                },
            ),
        }
    }
}

fn read_service(record: &[u8], header: &RecordHeader, offset: usize) -> (r: Result<
    (String, u16, u16, bool),
    MetaError,
>)
    ensures
        match r {
            Ok((service_id, major, minor, flag)) => service_of(record@, *header, offset) == Ok::<
                ServiceView,
                MetaError,
            >(ServiceView { service_id: service_id@, major, minor, flag }),
            Err(e) => service_of(record@, *header, offset) == Err::<ServiceView, MetaError>(e),
        },
{
    check_flags(header, SERVICE_FLAG, offset)?;
    if record.len() < SERVICE_RECORD {
        return Err(MetaError::Truncated(offset));
    }
    let service_id: String = read_service_id(&record[16..80], offset)?;
    let flag: bool = header.flags & SERVICE_FLAG != 0;
    Ok((service_id, get_u16(record, 4), get_u16(record, 6), flag))
}

/// The hook of a record. The record stands at `address` in the image.
pub open spec fn hook_of(
    record: Seq<u8>,
    header: RecordHeader,
    lookup: LookupView,
    address: int,
    offset: usize,
) -> Result<HookView, MetaError> {
    if !flags_fit(header, 0) {
        Err(MetaError::BadFlags(offset, header.kind, header.flags & !0))
    } else if header.kind == KIND_HOOK_FN {
        if record.len() < HOOK_FN_RECORD {
            Err(MetaError::Truncated(offset))
        } else {
            Ok(HookView::Fn { symbol: bound_at(lookup.binds, (address + 8) as u64, 0) })
        }
    } else if header.kind == KIND_HOOK_MEM {
        if record.len() < HOOK_MEM_RECORD {
            Err(MetaError::Truncated(offset))
        } else {
            match two_strings(record.subrange(32, record.len() as int), offset) {
                Err(e) => Err(e),
                Ok((vtable, display)) => {
                    let symbol = bound_at(lookup.binds, (address + 8) as u64, 0);
                    let virtual_slot = if symbol is None {
                        slot_of_pointer(
                            lookup.image.pe,
                            lookup.image.arch,
                            u64_at(record, 8),
                            u64_at(record, 16),
                        )
                    } else {
                        None
                    };
                    Ok(HookView::Mem { vtable, display, symbol, virtual_slot })
                },
            }
        }
    } else if header.kind == KIND_HOOK_MEM_EXT {
        if record.len() < HOOK_MEM_EXT_RECORD {
            Err(MetaError::Truncated(offset))
        } else if !(17 <= u32_at(record, 4) <= 24) {
            Err(MetaError::BadPointerSize(offset, u32_at(record, 4)))
        } else {
            match two_strings(record.subrange(24, record.len() as int), offset) {
                Err(e) => Err(e),
                Ok((vtable, display)) => {
                    let (symbol, virtual_slot) = match materialized(
                        lookup.image,
                        lookup.slots,
                        u64_at(record, 8),
                    ) {
                        Some(TargetView::Symbol(name)) => (Some(name), None),
                        Some(TargetView::VirtualSlot(slot)) => (None, Some(slot)),
                        None => (None, None),
                    };
                    Ok(HookView::Mem { vtable, display, symbol, virtual_slot })
                },
            }
        }
    } else if record.len() < HOOK_NAME_RECORD {
        Err(MetaError::Truncated(offset))
    } else {
        match cstr_of(record.subrange(16, record.len() as int), offset) {
            Err(e) => Err(e),
            Ok((name, _)) => Ok(HookView::Name { name }),
        }
    }
}

fn read_hook(
    record: &[u8],
    header: &RecordHeader,
    lookup: &Lookup,
    address: u64,
    offset: usize,
) -> (r: Result<HookTarget, MetaError>)
    requires
        address + 8 <= u64::MAX,
    ensures
        match r {
            Ok(hook) => hook_of(record@, *header, lookup@, address as int, offset) == Ok::<
                HookView,
                MetaError,
            >(hook@),
            Err(e) => hook_of(record@, *header, lookup@, address as int, offset) == Err::<
                HookView,
                MetaError,
            >(e),
        },
{
    check_flags(header, 0, offset)?;
    let len: usize = record.len();
    if header.kind == KIND_HOOK_FN {
        if len < HOOK_FN_RECORD {
            return Err(MetaError::Truncated(offset));
        }
        return Ok(HookTarget::Fn { symbol: find_bound(&lookup.binds, address + 8) });
    }
    if header.kind == KIND_HOOK_MEM {
        if len < HOOK_MEM_RECORD {
            return Err(MetaError::Truncated(offset));
        }
        let (vtable, display) = read_two_strings(&record[HOOK_MEM_RECORD..len], offset)?;
        let symbol: Option<String> = find_bound(&lookup.binds, address + 8);
        let virtual_slot: Option<u64> = match &symbol {
            Some(_) => None,
            None => decode_virtual_slot(
                lookup.image.pe,
                lookup.image.arch,
                get_u64(record, 8),
                get_u64(record, 16),
            ),
        };
        return Ok(HookTarget::Mem { vtable, display, symbol, virtual_slot });
    }
    if header.kind == KIND_HOOK_MEM_EXT {
        if len < HOOK_MEM_EXT_RECORD {
            return Err(MetaError::Truncated(offset));
        }
        let pmf_size: u32 = get_u32(record, 4);
        if pmf_size < 17 || pmf_size > 24 {
            return Err(MetaError::BadPointerSize(offset, pmf_size));
        }
        let (vtable, display) = read_two_strings(&record[HOOK_MEM_EXT_RECORD..len], offset)?;
        let target: Option<MemberTarget> = lookup.decoder.decode_materializer(
            &lookup.image,
            get_u64(record, 8),
        );
        return Ok(
            match target {
                Some(MemberTarget::Symbol(name)) => HookTarget::Mem {
                    vtable,
                    display,
                    symbol: Some(name),
                    virtual_slot: None,
                },
                Some(MemberTarget::VirtualSlot(slot)) => HookTarget::Mem {
                    vtable,
                    display,
                    symbol: None,
                    virtual_slot: Some(slot),
                },
                None => HookTarget::Mem { vtable, display, symbol: None, virtual_slot: None },
            },
        );
    }
    if len < HOOK_NAME_RECORD {
        return Err(MetaError::Truncated(offset));
    }
    let (name, _end) = read_cstr(&record[HOOK_NAME_RECORD..len], offset)?;
    Ok(HookTarget::Name { name })
}

/// What a record says.
pub open spec fn record_of(
    record: Seq<u8>,
    header: RecordHeader,
    lookup: LookupView,
    address: int,
    offset: usize,
) -> Result<RecordView, MetaError> {
    if header.kind == KIND_PAD || header.kind == KIND_HEADER {
        if !flags_fit(header, 0) {
            Err(MetaError::BadFlags(offset, header.kind, header.flags & !0))
        } else if header.kind == KIND_PAD {
            Ok(RecordView::Skipped)
        } else {
            Ok(RecordView::Header { abi_version: u32_at(record, 4) })
        }
    } else if header.kind == KIND_IMPORT || header.kind == KIND_EXPORT {
        match service_of(record, header, offset) {
            Err(e) => Err(e),
            Ok(service) => if header.kind == KIND_IMPORT {
                Ok(RecordView::Import(service))
            } else {
                Ok(RecordView::Export(service))
            },
        }
    } else if KIND_HOOK_FN <= header.kind <= KIND_HOOK_MEM_EXT {
        match hook_of(record, header, lookup, address, offset) {
            Err(e) => Err(e),
            Ok(hook) => Ok(RecordView::Hook(hook)),
        }
    } else {
        Ok(RecordView::Skipped)
    }
}

/// Read a record, which stands at `address` in the image and at `offset` in its section.
pub fn read_record(
    record: &[u8],
    header: &RecordHeader,
    lookup: &Lookup,
    address: u64,
    offset: usize,
) -> (r: Result<Record, MetaError>)
    requires
        record@.len() >= 8,
        address + 8 <= u64::MAX,
    ensures
        match r {
            Ok(found) => record_of(record@, *header, lookup@, address as int, offset) == Ok::<
                RecordView,
                MetaError,
            >(found@),
            Err(e) => record_of(record@, *header, lookup@, address as int, offset) == Err::<
                RecordView,
                MetaError,
            >(e),
        },
{
    let kind: u8 = header.kind;
    if kind == KIND_PAD {
        check_flags(header, 0, offset)?;
        Ok(Record::Skipped)
    } else if kind == KIND_HEADER {
        check_flags(header, 0, offset)?;
        Ok(Record::Header { abi_version: get_u32(record, 4) })
    } else if kind == KIND_IMPORT {
        let (service_id, major, min_minor, optional) = read_service(record, header, offset)?;
        Ok(Record::Import(Import { service_id, major, min_minor, optional }))
    } else if kind == KIND_EXPORT {
        let (service_id, major, minor, deferred) = read_service(record, header, offset)?;
        Ok(Record::Export(Export { service_id, major, minor, deferred }))
    } else if kind <= KIND_HOOK_MEM_EXT {
        let hook: HookTarget = read_hook(record, header, lookup, address, offset)?;
        Ok(Record::Hook(hook))
    } else {
        Ok(Record::Skipped)
    }
}

} // verus!
