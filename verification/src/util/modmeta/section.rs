//! The record stream of a metadata section.

use vstd::prelude::*;
use crate::bytes::{all_zero, get_u16, is_all_zero, u16_at};
use super::record::{
    read_record, record_of, Export, HookTarget, HookView, Import, Lookup, LookupView, MetaError,
    Record, RecordHeader, RecordView, ServiceView,
};

verus! {

/// Parsed object identity and static mod metadata from one entry library.
#[derive(Clone, Debug)]
pub struct MetaFile {
    pub format: String,
    pub arch: String,
    pub abi_version: u32,
    pub imports: Vec<Import>,
    pub exports: Vec<Export>,
    pub hooks: Vec<HookTarget>,
}

/// What the records of a section say.
pub struct Records {
    /// How many header records there are.
    pub headers: usize,
    /// The ABI version of the last of them.
    pub abi_version: u32,
    pub imports: Vec<Import>,
    pub exports: Vec<Export>,
    pub hooks: Vec<HookTarget>,
}

/// What the records of a section say, as a plain value.
pub struct RecordsView {
    pub headers: int,
    pub abi_version: u32,
    pub imports: Seq<ServiceView>,
    pub exports: Seq<ServiceView>,
    pub hooks: Seq<HookView>,
}

pub open spec fn import_views(imports: Seq<Import>) -> Seq<ServiceView> {
    Seq::new(imports.len(), |i: int| imports[i]@)
}

pub open spec fn export_views(exports: Seq<Export>) -> Seq<ServiceView> {
    Seq::new(exports.len(), |i: int| exports[i]@)
}

pub open spec fn hook_views(hooks: Seq<HookTarget>) -> Seq<HookView> {
    Seq::new(hooks.len(), |i: int| hooks[i]@)
}

impl View for Records {
    type V = RecordsView;

    open spec fn view(&self) -> RecordsView {
        RecordsView {
            headers: self.headers as int,
            abi_version: self.abi_version,
            imports: import_views(self.imports@),
            exports: export_views(self.exports@),
            hooks: hook_views(self.hooks@),
        }
    }
}

/// What the records say once another one is counted in.
pub open spec fn with_record(so_far: RecordsView, record: RecordView) -> RecordsView {
    match record {
        RecordView::Skipped => so_far,
        RecordView::Header { abi_version } => RecordsView {
            headers: so_far.headers + 1,
            abi_version,
            ..so_far
        },
        RecordView::Import(import) => RecordsView {
            imports: so_far.imports.push(import),
            ..so_far
        },
        RecordView::Export(export) => RecordsView {
            exports: so_far.exports.push(export),
            ..so_far
        },
        RecordView::Hook(hook) => RecordsView { hooks: so_far.hooks.push(hook), ..so_far },
    }
}

/// No records yet.
pub open spec fn no_records() -> RecordsView {
    RecordsView {
        headers: 0,
        abi_version: 0,
        imports: Seq::empty(),
        exports: Seq::empty(),
        hooks: Seq::empty(),
    }
}

/// The head of the record at `offset`.
pub open spec fn header_at(section: Seq<u8>, offset: int) -> RecordHeader {
    RecordHeader {
        size: u16_at(section, offset),
        kind: section[offset + 2],
        flags: section[offset + 3],
    }
}

/// Whether a record can have the size that its head gives.
pub open spec fn size_fits(size: int, left: int) -> bool {
    size >= 8 && size % 8 == 0 && size <= left
}

/// What the records from `offset` on say, those before being counted in. Eight zero bytes are
/// passed over, and so is a shorter rest of zero bytes. The section stands at `address`.
pub open spec fn records_from(
    section: Seq<u8>,
    lookup: LookupView,
    address: int,
    offset: int,
    so_far: RecordsView,
) -> Result<RecordsView, MetaError>
    decreases section.len() - offset,
{
    let left = section.len() - offset;
    if left <= 0 {
        Ok(so_far)
    } else if left < 8 {
        if all_zero(section.subrange(offset, section.len() as int)) {
            Ok(so_far)
        } else {
            Err(MetaError::Trailing(offset as usize))
        }
    } else if all_zero(section.subrange(offset, offset + 8)) {
        records_from(section, lookup, address, offset + 8, so_far)
    } else {
        let header = header_at(section, offset);
        if !size_fits(header.size as int, left) {
            Err(MetaError::BadSize(offset as usize, header.size))
        } else {
            match record_of(
                section.subrange(offset, offset + header.size),
                header,
                lookup,
                address + offset,
                offset as usize,
            ) {
                Err(e) => Err(e),
                Ok(record) => records_from(
                    section,
                    lookup,
                    address,
                    offset + header.size,
                    with_record(so_far, record),
                ),
            }
        }
    }
}

/// What the records of a section say, of which exactly one is a header.
pub open spec fn section_records(
    section: Seq<u8>,
    lookup: LookupView,
    address: int,
) -> Result<RecordsView, MetaError> {
    match records_from(section, lookup, address, 0, no_records()) {
        Err(e) => Err(e),
        Ok(records) => if records.headers != 1 {
            Err(MetaError::HeaderCount(records.headers as usize))
        } else {
            Ok(records)
        },
    }
}

fn add_record(records: &mut Records, record: Record)
    requires
        old(records).headers < usize::MAX,
    ensures
        final(records)@ == with_record(old(records)@, record@),
        final(records).headers <= old(records).headers + 1,
{
    match record {
        Record::Skipped => {},
        Record::Header { abi_version } => {
            records.headers = records.headers + 1;
            records.abi_version = abi_version;
        },
        Record::Import(import) => {
            let ghost before = import_views(records.imports@);
            records.imports.push(import);
            assert(import_views(records.imports@) =~= before.push(import@));
        },
        Record::Export(export) => {
            let ghost before = export_views(records.exports@);
            records.exports.push(export);
            assert(export_views(records.exports@) =~= before.push(export@));
        },
        Record::Hook(hook) => {
            let ghost before = hook_views(records.hooks@);
            records.hooks.push(hook);
            assert(hook_views(records.hooks@) =~= before.push(hook@));
        },
    }
}

/// Read the records of a section that stands at `address`.
pub fn parse_section(section: &[u8], lookup: &Lookup, address: u64) -> (r: Result<
    Records,
    MetaError,
>)
    requires
        address + section@.len() <= u64::MAX,
    ensures
        match r {
            Ok(records) => section_records(section@, lookup@, address as int) == Ok::<
                RecordsView,
                MetaError,
            >(records@),
            Err(e) => section_records(section@, lookup@, address as int) == Err::<
                RecordsView,
                MetaError,
            >(e),
        },
{
    let mut records: Records = Records {
        headers: 0,
        abi_version: 0,
        imports: Vec::new(),
        exports: Vec::new(),
        hooks: Vec::new(),
    };
    proof {
        assert(records@.imports =~= Seq::empty());
        assert(records@.exports =~= Seq::empty());
        assert(records@.hooks =~= Seq::empty());
    }
    let len: usize = section.len();
    let mut offset: usize = 0;
    while offset < len
        invariant
            offset <= len,
            len == section@.len(),
            address + section@.len() <= u64::MAX,
            records.headers <= offset,
            records_from(section@, lookup@, address as int, offset as int, records@)
                == records_from(section@, lookup@, address as int, 0, no_records()),
        decreases len - offset,
    {
        let left: usize = len - offset;
        if left < 8 {
            if is_all_zero(&section[offset..len]) {
                offset = len;
                continue ;
            }
            return Err(MetaError::Trailing(offset));
        }
        if is_all_zero(&section[offset..offset + 8]) {
            offset = offset + 8;
            continue ;
        }
        let header: RecordHeader = RecordHeader {
            size: get_u16(section, offset),
            kind: section[offset + 2],
            flags: section[offset + 3],
        };
        let size: usize = header.size as usize;
        if size < 8 || size % 8 != 0 || size > left {
            return Err(MetaError::BadSize(offset, header.size));
        }
        let record: Record = read_record(
            &section[offset..offset + size],
            &header,
            lookup,
            address + offset as u64,
            offset,
        )?;
        add_record(&mut records, record);
        offset = offset + size;
    }
    if records.headers != 1 {
        return Err(MetaError::HeaderCount(records.headers));
    }
    Ok(records)
}

} // verus!
