//! Reading a manifest that is embedded in a Mach-O image.

use vstd::prelude::*;
use vstd::utf8::*;
use crate::bytes::{c_string, copy_bytes, find_zero, same_bytes, u32_at, u64_at};
use crate::text::utf8_string;
use crate::util::objfile::{
    file_format, file_section, file_uuid, read_format, read_section_data, read_uuid, Format,
};
use super::format::{
    entry_at, fnv, fnv1a64, read_entry, ManifestEntry, ManifestError, ManifestHeader,
    FLAG_DUP_NAME, MAGIC, VERSION,
};
use super::write::{zstd_decode, zstd_decoded};

verus! {

/// Where a looked-up name stands.
#[derive(Clone, Copy, Debug, PartialEq, Eq, Structural)]
pub struct ManifestLookup {
    pub vmaddr: u64,
    pub flags: u32,
}

/// Why a name could not be looked up.
#[derive(Clone, Copy, Debug, PartialEq, Eq, Structural)]
pub enum LookupError {
    NotFound,
    Ambiguous,
}

/// Parsed `__SYMDB,__symdb` payload from a Mach-O image. Addresses are the link-time
/// vmaddrs stored by the writer; no runtime image base or dyld slide is applied here.
pub struct EmbeddedManifest {
    pub payload: Vec<u8>,
    pub entry_count: usize,
    pub strings_off: usize,
    pub build_uuid: [u8; 16],
}

/// The symbols of a manifest: its payload, and how many entries that has.
pub struct ManifestView {
    pub payload: Seq<u8>,
    pub count: int,
}

impl View for EmbeddedManifest {
    type V = ManifestView;

    open spec fn view(&self) -> ManifestView {
        ManifestView { payload: self.payload@, count: self.entry_count as int }
    }
}

/// The entry `i` of a payload.
pub open spec fn payload_entry(payload: Seq<u8>, i: int) -> ManifestEntry {
    entry_at(payload, 24 * i)
}

/// The name at `name_off` in the string table of a payload with `count` entries.
pub open spec fn payload_name(payload: Seq<u8>, count: int, name_off: u32) -> Result<
    Seq<u8>,
    ManifestError,
> {
    let start = 24 * count + name_off;
    if start > payload.len() {
        Err(ManifestError::NameOutOfBounds)
    } else {
        match c_string(payload.subrange(start, payload.len() as int)) {
            None => Err(ManifestError::NameUnterminated),
            Some(name) => if valid_utf8(name) {
                Ok(name)
            } else {
                Err(ManifestError::NameNotUtf8)
            },
        }
    }
}

/// Whether the key of `a` comes behind that of `b`.
pub open spec fn key_behind(a: ManifestEntry, b: ManifestEntry) -> bool {
    ||| a.hash > b.hash
    ||| a.hash == b.hash && a.name_off > b.name_off
    ||| a.hash == b.hash && a.name_off == b.name_off && a.rva > b.rva
}

/// Whether the entries from `from` on are sorted and named, or why the first that is not is refused.
pub open spec fn entries_valid(payload: Seq<u8>, count: int, from: int) -> Result<
    (),
    ManifestError,
>
    decreases count - from,
{
    if from >= count {
        Ok(())
    } else if from > 0 && key_behind(payload_entry(payload, from - 1), payload_entry(payload, from)) {
        Err(ManifestError::NotSorted)
    } else {
        match payload_name(payload, count, payload_entry(payload, from).name_off) {
            Err(e) => Err(e),
            Ok(_) => entries_valid(payload, count, from + 1),
        }
    }
}

/// The decompressed payload of a manifest whose header is in front of `blob`.
pub open spec fn blob_payload(blob: Seq<u8>) -> Result<Seq<u8>, ManifestError> {
    let compressed_len = u64_at(blob, 24);
    let uncompressed_len = u64_at(blob, 16);
    let compression = u32_at(blob, 12);
    if compressed_len > usize::MAX || uncompressed_len > usize::MAX {
        Err(ManifestError::TooLarge)
    } else if 72 + compressed_len > blob.len() {
        Err(ManifestError::PayloadTruncated)
    } else {
        let stored = blob.subrange(72, 72 + compressed_len);
        if compression == 0 {
            if compressed_len != uncompressed_len {
                Err(ManifestError::LengthMismatch)
            } else {
                Ok(stored)
            }
        } else if compression == 1 {
            match zstd_decoded(stored) {
                None => Err(ManifestError::DecompressFailed),
                Some(payload) => if payload.len() != uncompressed_len {
                    Err(
                        ManifestError::DecompressedLength {
                            found: payload.len() as usize,
                            expected: uncompressed_len as usize,
                        },
                    )
                } else {
                    Ok(payload)
                },
            }
        } else {
            Err(ManifestError::UnsupportedCompression(compression))
        }
    }
}

/// The payload and the entry count of the manifest in `blob` for the image `uuid`.
pub open spec fn manifest_in(blob: Seq<u8>, uuid: Seq<u8>) -> Result<
    (Seq<u8>, int),
    ManifestError,
> {
    let count = u32_at(blob, 68) as int;
    if blob.len() < 72 {
        Err(ManifestError::Truncated)
    } else if blob.subrange(0, 8) != MAGIC@ || u32_at(blob, 8) != VERSION {
        Err(ManifestError::WrongMagic)
    } else if u32_at(blob, 32) != 16 || blob.subrange(36, 52) != uuid {
        Err(ManifestError::UuidMismatch)
    } else {
        match blob_payload(blob) {
            Err(e) => Err(e),
            Ok(payload) => if 24 * count > usize::MAX {
                Err(ManifestError::EntryTableOverflow)
            } else if 24 * count > payload.len() {
                Err(ManifestError::EntryTableTruncated)
            } else {
                match entries_valid(payload, count, 0) {
                    Err(e) => Err(e),
                    Ok(_) => Ok((payload, count)),
                }
            },
        }
    }
}

/// What looking up `name` among the entries from `from` on gives: the first entry of that name.
pub open spec fn found_from(payload: Seq<u8>, count: int, name: Seq<u8>, from: int) -> Result<
    ManifestLookup,
    LookupError,
>
    decreases count - from,
{
    let entry = payload_entry(payload, from);
    if from >= count {
        Err(LookupError::NotFound)
    } else if entry.hash == fnv(name) && payload_name(payload, count, entry.name_off) == Ok::<
        Seq<u8>,
        ManifestError,
    >(name) {
        if entry.flags & FLAG_DUP_NAME != 0 {
            Err(LookupError::Ambiguous)
        } else {
            Ok(ManifestLookup { vmaddr: entry.rva, flags: entry.flags })
        }
    } else {
        found_from(payload, count, name, from + 1)
    }
}

/// The payload, the entry count and the build UUID of the manifest in the `__symdb` section of a
/// Mach-O image.
pub open spec fn embedded_in(data: Seq<u8>) -> Result<(Seq<u8>, int, Seq<u8>), ManifestError> {
    match (file_format(data), file_uuid(data), file_section(data, "__symdb"@)) {
        (None, _, _) => Err(ManifestError::ParseFailed),
        (Some(format), uuid, section) => if format != Format::MachO {
            Err(ManifestError::NotMachO)
        } else {
            match (uuid, section) {
                (None, _) => Err(ManifestError::NoUuid),
                (_, None) => Err(ManifestError::NoSection),
                (_, Some(None)) => Err(ManifestError::SectionUnreadable),
                (Some(uuid), Some(Some(blob))) => match manifest_in(blob, uuid) {
                    Err(e) => Err(e),
                    Ok((payload, count)) => Ok((payload, count, uuid)),
                },
            }
        },
    }
}

/// Whether the entries are sorted and each of them has a name.
pub open spec fn is_valid_payload(payload: Seq<u8>, count: int) -> bool {
    &&& 0 <= 24 * count <= payload.len()
    &&& forall|i: int| 0 <= i < count ==> payload_name(
        payload,
        count,
        (#[trigger] payload_entry(payload, i)).name_off,
    ).is_ok()
    &&& forall|i: int, j: int|
        0 <= i < j < count ==> (#[trigger] payload_entry(payload, i)).hash <= (
        #[trigger] payload_entry(payload, j)).hash
}

/// Entries that were found valid are sorted by their hashes and named.
pub proof fn lemma_entries_valid(payload: Seq<u8>, count: int, from: int)
    requires
        0 <= from,
        entries_valid(payload, count, from) == Ok::<(), ManifestError>(()),
    ensures
        forall|i: int| from <= i < count ==> payload_name(
            payload,
            count,
            (#[trigger] payload_entry(payload, i)).name_off,
        ).is_ok(),
        forall|i: int, j: int|
            (if from > 0 {
                from - 1
            } else {
                0
            }) <= i < j < count ==> (#[trigger] payload_entry(payload, i)).hash <= (
            #[trigger] payload_entry(payload, j)).hash,
    decreases count - from,
{
    if from < count {
        lemma_entries_valid(payload, count, from + 1);
        assert forall|i: int, j: int|
            (if from > 0 {
                from - 1
            } else {
                0
            }) <= i < j < count implies (#[trigger] payload_entry(payload, i)).hash <= (
        #[trigger] payload_entry(payload, j)).hash by {
            if i == from - 1 && j > from {
                assert(payload_entry(payload, from).hash <= payload_entry(payload, j).hash);
            }
        }
    }
}

impl EmbeddedManifest {
    /// Whether the payload was found valid.
    pub open spec fn is_valid(&self) -> bool {
        &&& self.strings_off == 24 * self.entry_count
        &&& is_valid_payload(self.payload@, self.entry_count as int)
    }

    /// The manifest in `blob`, which belongs to the image `uuid`.
    pub fn parse_blob(blob: &[u8], uuid: [u8; 16]) -> (r: Result<EmbeddedManifest, ManifestError>)
        ensures
            match r {
                Ok(m) => manifest_in(blob@, uuid@) == Ok::<(Seq<u8>, int), ManifestError>(
                    (m.payload@, m.entry_count as int),
                ) && m.build_uuid == uuid && m.is_valid(),
                Err(e) => manifest_in(blob@, uuid@) == Err::<(Seq<u8>, int), ManifestError>(e),
            },
    {
        let (header, rest) = match ManifestHeader::read_from_prefix(blob) {
            Some(parts) => parts,
            None => return Err(ManifestError::Truncated),
        };
        if !same_bytes(&header.magic, &MAGIC) || header.version != VERSION {
            return Err(ManifestError::WrongMagic);
        }
        let id: &[u8] = &header.build_id;
        assert(id@.subrange(0, 16) =~= blob@.subrange(36, 52));
        if header.build_id_len != 16 || !same_bytes(&id[0..16], &uuid) {
            return Err(ManifestError::UuidMismatch);
        }
        let payload: Vec<u8> = read_payload(blob, &header, rest)?;
        let entry_count: usize = header.entry_count as usize;
        if entry_count > usize::MAX / 24 {
            return Err(ManifestError::EntryTableOverflow);
        }
        let strings_off: usize = entry_count * 24;
        if strings_off > payload.len() {
            return Err(ManifestError::EntryTableTruncated);
        }
        let mut i: usize = 0;
        let ghost all = entries_valid(payload@, entry_count as int, 0);
        while i < entry_count
            invariant
                i <= entry_count,
                24 * entry_count <= payload@.len(),
                all == entries_valid(payload@, entry_count as int, 0),
                all matches Err(e) ==> manifest_in(blob@, uuid@) == Err::<
                    (Seq<u8>, int),
                    ManifestError,
                >(e),
                entries_valid(payload@, entry_count as int, i as int) == all,
            decreases entry_count - i,
        {
            assert(payload.len() <= usize::MAX);
            let entry: ManifestEntry = read_entry(&payload, 24 * i);
            if i > 0 {
                let previous: ManifestEntry = read_entry(&payload, 24 * (i - 1));
                if previous.hash > entry.hash || (previous.hash == entry.hash && previous.name_off
                    > entry.name_off) || (previous.hash == entry.hash && previous.name_off
                    == entry.name_off && previous.rva > entry.rva) {
                    return Err(ManifestError::NotSorted);
                }
            }
            read_name(&payload, entry_count, entry.name_off)?;
            i = i + 1;
        }
        proof {
            lemma_entries_valid(payload@, entry_count as int, 0);
        }
        Ok(EmbeddedManifest { payload, entry_count, strings_off, build_uuid: uuid })
    }

    /// The manifest that is embedded in a Mach-O image.
    pub fn parse_macho(data: &[u8]) -> (r: Result<EmbeddedManifest, ManifestError>)
        ensures
            match r {
                Ok(m) => embedded_in(data@) == Ok::<(Seq<u8>, int, Seq<u8>), ManifestError>(
                    (m.payload@, m.entry_count as int, m.build_uuid@),
                ) && m.is_valid(),
                Err(e) => embedded_in(data@) == Err::<(Seq<u8>, int, Seq<u8>), ManifestError>(e),
            },
    {
        match read_format(data) {
            None => return Err(ManifestError::ParseFailed),
            Some(format) => if format != Format::MachO {
                return Err(ManifestError::NotMachO);
            },
        }
        let uuid: [u8; 16] = match read_uuid(data) {
            Some(uuid) => uuid,
            None => return Err(ManifestError::NoUuid),
        };
        match read_section_data(data, "__symdb") {
            None => Err(ManifestError::NoSection),
            Some(None) => Err(ManifestError::SectionUnreadable),
            Some(Some(blob)) => EmbeddedManifest::parse_blob(&blob, uuid),
        }
    }

    /// The entry of the first symbol called `name`.
    pub fn lookup(&self, name: &str) -> (r: Result<ManifestLookup, LookupError>)
        requires
            self.is_valid(),
        ensures
            r == found_from(self.payload@, self.entry_count as int, encode_utf8(name@), 0),
    {
        let wanted: &[u8] = name.as_bytes();
        let hash: u64 = fnv1a64(wanted);
        let ghost count = self.entry_count as int;
        let ghost payload = self.payload@;
        assert(self.payload.len() <= usize::MAX);
        let mut lo: usize = 0;
        let mut hi: usize = self.entry_count;
        while lo < hi
            invariant
                self.is_valid(),
                payload == self.payload@,
                payload.len() <= usize::MAX,
                count == self.entry_count,
                lo <= hi <= count,
                hash == fnv(wanted@),
                forall|i: int| 0 <= i < lo ==> (#[trigger] payload_entry(payload, i)).hash < hash,
                forall|i: int|
                    hi <= i < count ==> (#[trigger] payload_entry(payload, i)).hash >= hash,
            decreases hi - lo,
        {
            let mid: usize = lo + (hi - lo) / 2;
            let entry: ManifestEntry = read_entry(&self.payload, 24 * mid);
            assert(entry == payload_entry(payload, mid as int));
            if entry.hash < hash {
                lo = mid + 1;
            } else {
                hi = mid;
            }
        }
        proof {
            lemma_skip_smaller(payload, count, wanted@, 0, lo as int);
        }
        let mut index: usize = lo;
        while index < self.entry_count
            invariant
                self.is_valid(),
                payload == self.payload@,
                payload.len() <= usize::MAX,
                count == self.entry_count,
                index <= count,
                hash == fnv(wanted@),
                wanted@ == encode_utf8(name@),
                lo <= index,
                forall|i: int|
                    lo <= i < count ==> (#[trigger] payload_entry(payload, i)).hash >= hash,
                found_from(payload, count, wanted@, index as int) == found_from(
                    payload,
                    count,
                    wanted@,
                    0,
                ),
            decreases self.entry_count - index,
        {
            let entry: ManifestEntry = read_entry(&self.payload, 24 * index);
            assert(entry == payload_entry(payload, index as int));
            if entry.hash != hash {
                proof {
                    lemma_skip_larger(payload, count, wanted@, index as int);
                }
                return Err(LookupError::NotFound);
            }
            let found: Result<(usize, usize), ManifestError> = read_name(
                &self.payload,
                self.entry_count,
                entry.name_off,
            );
            match found {
                Ok((start, end)) => {
                    if same_bytes(&self.payload[start..end], wanted) {
                        if entry.flags & FLAG_DUP_NAME != 0 {
                            return Err(LookupError::Ambiguous);
                        }
                        return Ok(ManifestLookup { vmaddr: entry.rva, flags: entry.flags });
                    }
                },
                Err(_) => {},
            }
            index = index + 1;
        }
        Err(LookupError::NotFound)
    }
}

/// Entries with a smaller hash are no matches.
proof fn lemma_skip_smaller(payload: Seq<u8>, count: int, name: Seq<u8>, from: int, lo: int)
    requires
        0 <= from <= lo <= count,
        forall|i: int| 0 <= i < lo ==> (#[trigger] payload_entry(payload, i)).hash < fnv(name),
    ensures
        found_from(payload, count, name, from) == found_from(payload, count, name, lo),
    decreases lo - from,
{
    if from < lo {
        assert(payload_entry(payload, from).hash < fnv(name));
        lemma_skip_smaller(payload, count, name, from + 1, lo);
    }
}

/// Behind an entry with a larger hash there are no matches.
proof fn lemma_skip_larger(payload: Seq<u8>, count: int, name: Seq<u8>, from: int)
    requires
        is_valid_payload(payload, count),
        0 <= from,
        from < count ==> payload_entry(payload, from).hash > fnv(name),
    ensures
        found_from(payload, count, name, from) == Err::<ManifestLookup, LookupError>(
            LookupError::NotFound,
        ),
    decreases count - from,
{
    if from < count {
        if from + 1 < count {
            assert(payload_entry(payload, from).hash <= payload_entry(payload, from + 1).hash);
        }
        lemma_skip_larger(payload, count, name, from + 1);
    }
}

/// Read the range of the name at `name_off`.
fn read_name(payload: &[u8], count: usize, name_off: u32) -> (r: Result<
    (usize, usize),
    ManifestError,
>)
    requires
        24 * count <= payload@.len(),
    ensures
        match r {
            Ok((start, end)) => start <= end <= payload@.len() && payload_name(
                payload@,
                count as int,
                name_off,
            ) == Ok::<Seq<u8>, ManifestError>(payload@.subrange(start as int, end as int)),
            Err(e) => payload_name(payload@, count as int, name_off) == Err::<
                Seq<u8>,
                ManifestError,
            >(e),
        },
{
    assert(payload.len() <= usize::MAX);
    let strings_off: usize = 24 * count;
    if name_off as u64 > (payload.len() - strings_off) as u64 {
        return Err(ManifestError::NameOutOfBounds);
    }
    let start: usize = strings_off + name_off as usize;
    let rest: &[u8] = &payload[start..payload.len()];
    match find_zero(rest) {
        None => Err(ManifestError::NameUnterminated),
        Some(len) => {
            let name: &[u8] = &rest[0..len];
            assert(name@ =~= payload@.subrange(start as int, start + len));
            match utf8_string(copy_bytes(name)) {
                Some(_) => Ok((start, start + len)),
                None => Err(ManifestError::NameNotUtf8),
            }
        },
    }
}

/// Read the payload behind a header.
fn read_payload(blob: &[u8], header: &ManifestHeader, rest: &[u8]) -> (r: Result<
    Vec<u8>,
    ManifestError,
>)
    requires
        blob@.len() >= 72,
        super::format::is_header_of(*header, blob@),
        rest@ == blob@.subrange(72, blob@.len() as int),
    ensures
        match r {
            Ok(payload) => blob_payload(blob@) == Ok::<Seq<u8>, ManifestError>(payload@),
            Err(e) => blob_payload(blob@) == Err::<Seq<u8>, ManifestError>(e),
        },
{
    if header.compressed_len > usize::MAX as u64 || header.uncompressed_len > usize::MAX as u64 {
        return Err(ManifestError::TooLarge);
    }
    if header.compressed_len > rest.len() as u64 {
        return Err(ManifestError::PayloadTruncated);
    }
    let stored: &[u8] = &rest[0..header.compressed_len as usize];
    assert(stored@ =~= blob@.subrange(72, 72 + header.compressed_len));
    if header.compression == 0 {
        if header.compressed_len != header.uncompressed_len {
            return Err(ManifestError::LengthMismatch);
        }
        Ok(copy_bytes(stored))
    } else if header.compression == 1 {
        match zstd_decode(stored) {
            None => Err(ManifestError::DecompressFailed),
            Some(payload) => if payload.len() as u64 != header.uncompressed_len {
                Err(
                    ManifestError::DecompressedLength {
                        found: payload.len(),
                        expected: header.uncompressed_len as usize,
                    },
                )
            } else {
                Ok(payload)
            },
        }
    } else {
        Err(ManifestError::UnsupportedCompression(header.compression))
    }
}

} // verus!
