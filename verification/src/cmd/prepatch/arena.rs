//! The arenas that an image has already.

use vstd::prelude::*;
use crate::bytes::{
    all_zero, begins, bytes_begin, get_u32, group_field_len, is_all_zero, le32, push_u32,
    same_bytes, u32_at,
};
use crate::order::{distinct_order, keys, keys_at, lemma_sorted_form_exists, same_keys, sorted_form};
use crate::util::arm64::{b, b_code};
use crate::util::macho::fixups::Segment;
use crate::util::macho::format::MachOError;
use crate::util::macho::image::{ImageModel, MachOImage};
use super::site::{
    add_delta, arena_code_size, encode_record, generation_in, make_placement, moved, placement_of,
    record_of, segment_generation, Placement, PlacementView, ARENA_HEADER_SIZE, ARENA_MAGIC,
    CODE_SEGMENT_PREFIX, DATA_SEGMENT_PREFIX, RECORD_SIZE, SITE_HEADER_SIZE, SITE_MAGIC,
};
use super::PrepatchError;

verus! {

/// Readable and executable.
pub const RX: u32 = 5;

/// Readable and writable.
pub const RW: u32 = 3;

/// An arena with the places of its free records.
#[derive(Debug)]
pub struct ExistingArena {
    pub code_vmaddr: u64,
    pub data_vmaddr: u64,
    pub free_indices: Vec<u32>,
}

/// A hook site that is installed.
#[derive(Clone, Copy, Debug)]
pub struct Site {
    pub target: u64,
    pub placement: Placement,
}

/// An arena as a plain value.
pub struct ArenaView {
    pub code_vmaddr: u64,
    pub data_vmaddr: u64,
    pub free_indices: Seq<u32>,
}

impl View for ExistingArena {
    type V = ArenaView;

    open spec fn view(&self) -> ArenaView {
        ArenaView {
            code_vmaddr: self.code_vmaddr,
            data_vmaddr: self.data_vmaddr,
            free_indices: self.free_indices@,
        }
    }
}

pub open spec fn arena_views(arenas: Seq<ExistingArena>) -> Seq<ArenaView> {
    Seq::new(arenas.len(), |i: int| arenas[i]@)
}

pub open spec fn site_views(sites: Seq<Site>) -> Seq<(u64, PlacementView)> {
    Seq::new(sites.len(), |i: int| (sites[i].target, sites[i].placement@))
}

/// The targets of hook sites.
pub open spec fn site_targets(sites: Seq<(u64, PlacementView)>) -> Seq<u64> {
    Seq::new(sites.len(), |i: int| sites[i].0)
}

/// Whether a range lies in a segment with exactly the given protection.
pub open spec fn is_protected(
    image: ImageModel,
    address: u64,
    size: int,
    protection: u32,
) -> bool {
    exists|i: int|
        0 <= i < image.segments.len() && {
            let s = #[trigger] image.segments[i];
            s.vmaddr + s.vmsize <= u64::MAX && address + size <= s.vmaddr + s.vmsize && s.vmaddr
                <= address && s.max_prot == protection && s.init_prot == protection
        }
}

/// Whether a range lies in a segment with exactly the given protection.
pub fn has_protection(image: &MachOImage, address: u64, size: u64, protection: u32) -> (r: bool)
    ensures
        r == is_protected(image@, address, size as int, protection),
{
    let end: u64 = match address.checked_add(size) {
        Some(end) => end,
        None => return false,
    };
    let segments: &[Segment] = image.segments();
    let mut i: usize = 0;
    while i < segments.len()
        invariant
            i <= segments@.len(),
            segments@ == image@.segments,
            end == address + size,
            forall|k: int|
                0 <= k < i ==> {
                    let s = #[trigger] image@.segments[k];
                    !(s.vmaddr + s.vmsize <= u64::MAX && address + size <= s.vmaddr + s.vmsize
                        && s.vmaddr <= address && s.max_prot == protection && s.init_prot
                        == protection)
                },
        decreases segments@.len() - i,
    {
        let s: &Segment = &segments[i];
        match s.vmaddr.checked_add(s.vmsize) {
            Some(segment_end) => {
                if address >= s.vmaddr && end <= segment_end && s.max_prot == protection
                    && s.init_prot == protection {
                    assert(image@.segments[i as int] == *s);
                    return true;
                }
            },
            None => {},
        }
        i = i + 1;
    }
    false
}

/// The generations of found segments.
pub open spec fn generations(found: Seq<(u32, usize)>) -> Seq<u32> {
    Seq::new(found.len(), |i: int| found[i].0)
}

/// The code and the data segments among the first `n` segments. Two with one generation are refused.
pub open spec fn found_segments(segments: Seq<Segment>, n: int) -> Result<
    (Seq<(u32, usize)>, Seq<(u32, usize)>),
    PrepatchError,
>
    decreases n,
{
    if n <= 0 {
        Ok((Seq::empty(), Seq::empty()))
    } else {
        match found_segments(segments, n - 1) {
            Err(e) => Err(e),
            Ok((code, data)) => {
                let name = segments[n - 1].name@;
                let at = (n - 1) as usize;
                match (
                    generation_in(name, CODE_SEGMENT_PREFIX@),
                    generation_in(name, DATA_SEGMENT_PREFIX@),
                ) {
                    (Some(g), _) => if generations(code).contains(g) {
                        Err(PrepatchError::DuplicateGeneration(g))
                    } else {
                        Ok((code.push((g, at)), data))
                    },
                    (None, Some(g)) => if generations(data).contains(g) {
                        Err(PrepatchError::DuplicateGeneration(g))
                    } else {
                        Ok((code, data.push((g, at))))
                    },
                    (None, None) => Ok((code, data)),
                }
            },
        }
    }
}

proof fn lemma_found_error(segments: Seq<Segment>, n: int, m: int)
    requires
        0 <= n <= m,
        found_segments(segments, n) is Err,
    ensures
        found_segments(segments, m) == found_segments(segments, n),
    decreases m,
{
    if n < m {
        lemma_found_error(segments, n, m - 1);
    }
}

proof fn lemma_found_places(segments: Seq<Segment>, n: int)
    requires
        0 <= n <= segments.len(),
        segments.len() <= usize::MAX,
    ensures
        found_segments(segments, n) matches Ok((code, data)) ==> {
            &&& forall|i: int| 0 <= i < code.len() ==> (#[trigger] code[i]).1 < n
            &&& forall|i: int| 0 <= i < data.len() ==> (#[trigger] data[i]).1 < n
        },
    decreases n,
{
    if n > 0 {
        lemma_found_places(segments, n - 1);
    }
}

/// Find the place of a generation.
fn find_generation(found: &[(u32, usize)], generation: u32) -> (r: Option<usize>)
    ensures
        match r {
            Some(i) => i < found@.len() && found@[i as int].0 == generation,
            None => !generations(found@).contains(generation),
        },
{
    let ghost all = generations(found@);
    let mut i: usize = 0;
    while i < found.len()
        invariant
            i <= found@.len(),
            all == generations(found@),
            forall|k: int| 0 <= k < i ==> all[k] != generation,
        decreases found@.len() - i,
    {
        assert(all[i as int] == found@[i as int].0);
        if found[i].0 == generation {
            return Some(i);
        }
        i = i + 1;
    }
    None
}

/// Find the code and the data segments of arenas.
fn find_segments(segments: &[Segment]) -> (r: Result<
    (Vec<(u32, usize)>, Vec<(u32, usize)>),
    PrepatchError,
>)
    ensures
        match r {
            Ok((code, data)) => found_segments(segments@, segments@.len() as int) == Ok::<
                (Seq<(u32, usize)>, Seq<(u32, usize)>),
                PrepatchError,
            >((code@, data@)),
            Err(e) => found_segments(segments@, segments@.len() as int) == Err::<
                (Seq<(u32, usize)>, Seq<(u32, usize)>),
                PrepatchError,
            >(e),
        },
{
    let mut code: Vec<(u32, usize)> = Vec::new();
    let mut data: Vec<(u32, usize)> = Vec::new();
    let mut i: usize = 0;
    while i < segments.len()
        invariant
            i <= segments@.len(),
            found_segments(segments@, i as int) == Ok::<
                (Seq<(u32, usize)>, Seq<(u32, usize)>),
                PrepatchError,
            >((code@, data@)),
        decreases segments@.len() - i,
    {
        let name: &[u8; 16] = &segments[i].name;
        match segment_generation(name, &CODE_SEGMENT_PREFIX) {
            Some(g) => {
                match find_generation(&code, g) {
                    Some(k) => {
                        proof {
                            assert(generations(code@)[k as int] == g);
                            lemma_found_error(segments@, i + 1, segments@.len() as int);
                        }
                        return Err(PrepatchError::DuplicateGeneration(g));
                    },
                    None => {
                        code.push((g, i));
                    },
                }
            },
            None => match segment_generation(name, &DATA_SEGMENT_PREFIX) {
                Some(g) => {
                    match find_generation(&data, g) {
                        Some(k) => {
                            proof {
                                assert(generations(data@)[k as int] == g);
                                lemma_found_error(segments@, i + 1, segments@.len() as int);
                            }
                            return Err(PrepatchError::DuplicateGeneration(g));
                        },
                        None => {
                            data.push((g, i));
                        },
                    }
                },
                None => {},
            },
        }
        i = i + 1;
    }
    Ok((code, data))
}

/// The record at a place of an arena: no site where it is free.
pub open spec fn record_state(
    image: ImageModel,
    generation: u32,
    code: u64,
    data: u64,
    index: u32,
) -> Result<Option<(u64, PlacementView)>, PrepatchError> {
    let record = code + ARENA_HEADER_SIZE + index * RECORD_SIZE;
    let slot = data + index * 8;
    if record > u64::MAX {
        Err(PrepatchError::RecordAddress)
    } else if slot > u64::MAX {
        Err(PrepatchError::SlotAddress)
    } else {
        match (image.bytes(record as u64, RECORD_SIZE as int), image.bytes(slot as u64, 8)) {
            (Err(e), _) => Err(PrepatchError::Image(e)),
            (_, Err(e)) => Err(PrepatchError::Image(e)),
            (Ok(bytes), Ok(slot_bytes)) => if all_zero(bytes) {
                if all_zero(slot_bytes) {
                    Ok(None)
                } else {
                    Err(PrepatchError::FreeSlot(generation, index))
                }
            } else if !begins(bytes, SITE_MAGIC@) {
                Err(PrepatchError::RecordHeader(generation, index))
            } else if !all_zero(slot_bytes) {
                Err(PrepatchError::FileSlot(generation, index))
            } else {
                match site_state(
                    image,
                    generation,
                    index,
                    record as u64,
                    slot as u64,
                    bytes,
                ) {
                    Err(e) => Err(e),
                    Ok(site) => Ok(Some(site)),
                }
            },
        }
    }
}

/// The site of a record that is in use.
pub open spec fn site_state(
    image: ImageModel,
    generation: u32,
    index: u32,
    record: u64,
    slot: u64,
    bytes: Seq<u8>,
) -> Result<(u64, PlacementView), PrepatchError> {
    if record + SITE_HEADER_SIZE > u64::MAX {
        Err(PrepatchError::GatewayAddress)
    } else {
        let gateway = (record + SITE_HEADER_SIZE) as u64;
        match (moved(gateway, u32_at(bytes, 4)), moved(gateway, u32_at(bytes, 8))) {
            (None, _) => Err(PrepatchError::TargetAddress),
            (_, None) => Err(PrepatchError::GatewaySlotAddress),
            (Some(target), Some(recorded)) => if recorded != slot {
                Err(PrepatchError::WrongSlot(generation, index))
            } else if !is_protected(image, target, 4, RX) {
                Err(PrepatchError::TargetProtection(generation, index))
            } else {
                match placement_of(target, record, slot) {
                    Err(e) => Err(e),
                    Ok(p) => match record_of(target, p) {
                        Err(e) => Err(e),
                        Ok(wanted) => if bytes != wanted {
                            Err(PrepatchError::GatewayBytes(generation, index))
                        } else {
                            match (image.bytes(target, 4), b_code(target, gateway)) {
                                (Err(e), _) => Err(PrepatchError::Image(e)),
                                (_, Err(e)) => Err(PrepatchError::Encoding(e)),
                                (Ok(entry), Ok(code)) => if entry != le32(code) {
                                    Err(PrepatchError::NotInstalled(generation, index))
                                } else {
                                    Ok((target, p))
                                },
                            }
                        },
                    },
                }
            },
        }
    }
}

fn read_bytes<'data>(image: &MachOImage<'data>, address: u64, size: usize) -> (r: Result<
    &'data [u8],
    PrepatchError,
>)
    ensures
        match r {
            Ok(bytes) => image@.bytes(address, size as int) == Ok::<Seq<u8>, MachOError>(bytes@)
                && bytes@.len() == size,
            Err(e) => image@.bytes(address, size as int) matches Err(m) && e
                == PrepatchError::Image(m),
        },
{
    match image.bytes_at(address, size) {
        Ok(bytes) => Ok(bytes),
        Err(e) => Err(PrepatchError::Image(e)),
    }
}

/// Check a record that is in use.
fn check_site(
    image: &MachOImage,
    generation: u32,
    index: u32,
    record: u64,
    slot: u64,
    bytes: &[u8],
) -> (r: Result<Site, PrepatchError>)
    requires
        bytes@.len() == RECORD_SIZE,
    ensures
        match r {
            Ok(site) => site_state(image@, generation, index, record, slot, bytes@) == Ok::<
                (u64, PlacementView),
                PrepatchError,
            >((site.target, site.placement@)),
            Err(e) => site_state(image@, generation, index, record, slot, bytes@) == Err::<
                (u64, PlacementView),
                PrepatchError,
            >(e),
        },
{
    broadcast use group_field_len;

    let gateway: u64 = match record.checked_add(SITE_HEADER_SIZE) {
        Some(gateway) => gateway,
        None => return Err(PrepatchError::GatewayAddress),
    };
    let target: u64 = match add_delta(gateway, get_u32(bytes, 4)) {
        Some(target) => target,
        None => return Err(PrepatchError::TargetAddress),
    };
    let recorded: u64 = match add_delta(gateway, get_u32(bytes, 8)) {
        Some(recorded) => recorded,
        None => return Err(PrepatchError::GatewaySlotAddress),
    };
    if recorded != slot {
        return Err(PrepatchError::WrongSlot(generation, index));
    }
    if !has_protection(image, target, 4, RX) {
        return Err(PrepatchError::TargetProtection(generation, index));
    }
    let placement: Placement = make_placement(target, record, slot)?;
    let wanted: Vec<u8> = encode_record(target, &placement)?;
    if !same_bytes(bytes, &wanted) {
        return Err(PrepatchError::GatewayBytes(generation, index));
    }
    let entry: &[u8] = read_bytes(image, target, 4)?;
    let code: u32 = match b(target, gateway) {
        Ok(code) => code,
        Err(e) => return Err(PrepatchError::Encoding(e)),
    };
    let mut branch: Vec<u8> = Vec::new();
    push_u32(&mut branch, code);
    assert(branch@ =~= le32(code));
    if !same_bytes(entry, &branch) {
        return Err(PrepatchError::NotInstalled(generation, index));
    }
    Ok(Site { target, placement })
}

/// Check the record at a place of an arena.
fn check_record(image: &MachOImage, generation: u32, code: u64, data: u64, index: u32) -> (r:
    Result<Option<Site>, PrepatchError>)
    ensures
        match r {
            Ok(Some(site)) => record_state(image@, generation, code, data, index) == Ok::<
                Option<(u64, PlacementView)>,
                PrepatchError,
            >(Some((site.target, site.placement@))),
            Ok(None) => record_state(image@, generation, code, data, index) == Ok::<
                Option<(u64, PlacementView)>,
                PrepatchError,
            >(None),
            Err(e) => record_state(image@, generation, code, data, index) == Err::<
                Option<(u64, PlacementView)>,
                PrepatchError,
            >(e),
        },
{
    let record: u64 = match code.checked_add(ARENA_HEADER_SIZE) {
        Some(start) => match start.checked_add(index as u64 * RECORD_SIZE) {
            Some(record) => record,
            None => return Err(PrepatchError::RecordAddress),
        },
        None => return Err(PrepatchError::RecordAddress),
    };
    let slot: u64 = match data.checked_add(index as u64 * 8) {
        Some(slot) => slot,
        None => return Err(PrepatchError::SlotAddress),
    };
    let bytes: &[u8] = read_bytes(image, record, RECORD_SIZE as usize)?;
    let slot_bytes: &[u8] = read_bytes(image, slot, 8)?;
    if is_all_zero(bytes) {
        if !is_all_zero(slot_bytes) {
            return Err(PrepatchError::FreeSlot(generation, index));
        }
        return Ok(None);
    }
    if !bytes_begin(bytes, &SITE_MAGIC) {
        return Err(PrepatchError::RecordHeader(generation, index));
    }
    if !is_all_zero(slot_bytes) {
        return Err(PrepatchError::FileSlot(generation, index));
    }
    let site: Site = check_site(image, generation, index, record, slot, bytes)?;
    Ok(Some(site))
}

/// The free places and the sites of the first `n` records of an arena, the sites behind those of
/// earlier arenas.
pub open spec fn records_state(
    image: ImageModel,
    generation: u32,
    code: u64,
    data: u64,
    before: Seq<(u64, PlacementView)>,
    n: int,
) -> Result<(Seq<u32>, Seq<(u64, PlacementView)>), PrepatchError>
    decreases n,
{
    if n <= 0 {
        Ok((Seq::empty(), before))
    } else {
        match records_state(image, generation, code, data, before, n - 1) {
            Err(e) => Err(e),
            Ok((free, sites)) => match record_state(
                image,
                generation,
                code,
                data,
                (n - 1) as u32,
            ) {
                Err(e) => Err(e),
                Ok(None) => Ok((free.push((n - 1) as u32), sites)),
                Ok(Some((target, placement))) => if site_targets(sites).contains(target) {
                    Err(PrepatchError::DuplicateTarget(target))
                } else {
                    Ok((free, sites.push((target, placement))))
                },
            },
        }
    }
}

proof fn lemma_records_error(
    image: ImageModel,
    generation: u32,
    code: u64,
    data: u64,
    before: Seq<(u64, PlacementView)>,
    n: int,
    m: int,
)
    requires
        0 <= n <= m,
        records_state(image, generation, code, data, before, n) is Err,
    ensures
        records_state(image, generation, code, data, before, m) == records_state(
            image,
            generation,
            code,
            data,
            before,
            n,
        ),
    decreases m,
{
    if n < m {
        lemma_records_error(image, generation, code, data, before, n, m - 1);
    }
}

/// Find the site of a target.
pub fn find_site(sites: &[Site], target: u64) -> (r: Option<usize>)
    ensures
        match r {
            Some(i) => i < sites@.len() && sites@[i as int].target == target && forall|k: int|
                0 <= k < i ==> #[trigger] sites@[k].target != target,
            None => !site_targets(site_views(sites@)).contains(target),
        },
{
    let ghost all = site_targets(site_views(sites@));
    let mut i: usize = 0;
    while i < sites.len()
        invariant
            i <= sites@.len(),
            all == site_targets(site_views(sites@)),
            forall|k: int| 0 <= k < i ==> #[trigger] sites@[k].target != target,
        decreases sites@.len() - i,
    {
        if sites[i].target == target {
            return Some(i);
        }
        i = i + 1;
    }
    assert forall|k: int| 0 <= k < all.len() implies all[k] != target by {
        assert(all[k] == sites@[k].target);
    }
    None
}

/// Check the records of an arena.
fn check_records(
    image: &MachOImage,
    generation: u32,
    code: u64,
    data: u64,
    capacity: u32,
    sites: &mut Vec<Site>,
) -> (r: Result<Vec<u32>, PrepatchError>)
    ensures
        ({
            let wanted = records_state(
                image@,
                generation,
                code,
                data,
                site_views(old(sites)@),
                capacity as int,
            );
            match r {
                Ok(free) => wanted == Ok::<
                    (Seq<u32>, Seq<(u64, PlacementView)>),
                    PrepatchError,
                >((free@, site_views(final(sites)@))),
                Err(e) => wanted == Err::<(Seq<u32>, Seq<(u64, PlacementView)>), PrepatchError>(e),
            }
        }),
{
    let ghost before = site_views(sites@);
    let mut free: Vec<u32> = Vec::new();
    let mut index: u32 = 0;
    while index < capacity
        invariant
            index <= capacity,
            before == site_views(old(sites)@),
            records_state(image@, generation, code, data, before, index as int) == Ok::<
                (Seq<u32>, Seq<(u64, PlacementView)>),
                PrepatchError,
            >((free@, site_views(sites@))),
        decreases capacity - index,
    {
        let ghost so_far = site_views(sites@);
        match check_record(image, generation, code, data, index) {
            Ok(None) => {
                free.push(index);
            },
            Ok(Some(site)) => {
                match find_site(sites, site.target) {
                    Some(k) => {
                        proof {
                            assert(site_targets(so_far)[k as int] == site.target);
                            lemma_records_error(
                                image@,
                                generation,
                                code,
                                data,
                                before,
                                index + 1,
                                capacity as int,
                            );
                        }
                        return Err(PrepatchError::DuplicateTarget(site.target));
                    },
                    None => {
                        sites.push(site);
                        assert(site_views(sites@) =~= so_far.push((site.target, site.placement@)));
                    },
                }
            },
            Err(e) => {
                proof {
                    lemma_records_error(
                        image@,
                        generation,
                        code,
                        data,
                        before,
                        index + 1,
                        capacity as int,
                    );
                }
                return Err(e);
            },
        }
        index = index + 1;
    }
    Ok(free)
}

/// An arena and the sites of it and of earlier ones.
pub open spec fn arena_state(
    image: ImageModel,
    generation: u32,
    code: Segment,
    data: Segment,
    before: Seq<(u64, PlacementView)>,
) -> Result<(ArenaView, Seq<(u64, PlacementView)>), PrepatchError> {
    if code.max_prot != RX || code.init_prot != RX {
        Err(PrepatchError::CodeProtection(generation))
    } else if data.max_prot != RW || data.init_prot != RW {
        Err(PrepatchError::DataProtection(generation))
    } else {
        match image.bytes(code.vmaddr, ARENA_HEADER_SIZE as int) {
            Err(e) => Err(PrepatchError::Image(e)),
            Ok(header) => {
                let capacity = u32_at(header, 4);
                if !begins(header, ARENA_MAGIC@) {
                    Err(PrepatchError::ArenaHeader(generation))
                } else if capacity == 0 || u32_at(header, 8) != RECORD_SIZE {
                    Err(PrepatchError::ArenaShape(generation))
                } else if arena_code_size(capacity as int) > code.filesize || capacity * 8
                    > data.filesize {
                    Err(PrepatchError::ArenaBacking(generation))
                } else {
                    match records_state(
                        image,
                        generation,
                        code.vmaddr,
                        data.vmaddr,
                        before,
                        capacity as int,
                    ) {
                        Err(e) => Err(e),
                        Ok((free_indices, sites)) => Ok(
                            (
                                ArenaView {
                                    code_vmaddr: code.vmaddr,
                                    data_vmaddr: data.vmaddr,
                                    free_indices,
                                },
                                sites,
                            ),
                        ),
                    }
                }
            },
        }
    }
}

/// Check an arena.
fn check_arena(
    image: &MachOImage,
    generation: u32,
    code: &Segment,
    data: &Segment,
    sites: &mut Vec<Site>,
) -> (r: Result<ExistingArena, PrepatchError>)
    ensures
        ({
            let wanted = arena_state(image@, generation, *code, *data, site_views(old(sites)@));
            match r {
                Ok(arena) => wanted == Ok::<
                    (ArenaView, Seq<(u64, PlacementView)>),
                    PrepatchError,
                >((arena@, site_views(final(sites)@))),
                Err(e) => wanted == Err::<(ArenaView, Seq<(u64, PlacementView)>), PrepatchError>(
                    e,
                ),
            }
        }),
{
    if code.max_prot != RX || code.init_prot != RX {
        return Err(PrepatchError::CodeProtection(generation));
    }
    if data.max_prot != RW || data.init_prot != RW {
        return Err(PrepatchError::DataProtection(generation));
    }
    let header: &[u8] = read_bytes(image, code.vmaddr, ARENA_HEADER_SIZE as usize)?;
    if !bytes_begin(header, &ARENA_MAGIC) {
        return Err(PrepatchError::ArenaHeader(generation));
    }
    let capacity: u32 = get_u32(header, 4);
    let record_size: u32 = get_u32(header, 8);
    if capacity == 0 || record_size as u64 != RECORD_SIZE {
        return Err(PrepatchError::ArenaShape(generation));
    }
    let code_size: u64 = ARENA_HEADER_SIZE + capacity as u64 * RECORD_SIZE;
    let data_size: u64 = capacity as u64 * 8;
    if code_size > code.filesize || data_size > data.filesize {
        return Err(PrepatchError::ArenaBacking(generation));
    }
    let free_indices: Vec<u32> = check_records(
        image,
        generation,
        code.vmaddr,
        data.vmaddr,
        capacity,
        sites,
    )?;
    Ok(ExistingArena { code_vmaddr: code.vmaddr, data_vmaddr: data.vmaddr, free_indices })
}

/// The segment of a generation.
pub open spec fn segment_of(
    segments: Seq<Segment>,
    found: Seq<(u32, usize)>,
    generation: u32,
) -> Segment {
    segments[found[generations(found).index_of_first(generation)->Some_0].1 as int]
}

/// The arenas and the sites of the first `n` generations.
pub open spec fn arenas_state(
    image: ImageModel,
    order: Seq<u32>,
    code: Seq<(u32, usize)>,
    data: Seq<(u32, usize)>,
    n: int,
) -> Result<(Seq<ArenaView>, Seq<(u64, PlacementView)>), PrepatchError>
    decreases n,
{
    if n <= 0 {
        Ok((Seq::empty(), Seq::empty()))
    } else {
        match arenas_state(image, order, code, data, n - 1) {
            Err(e) => Err(e),
            Ok((arenas, sites)) => match arena_state(
                image,
                order[n - 1],
                segment_of(image.segments, code, order[n - 1]),
                segment_of(image.segments, data, order[n - 1]),
                sites,
            ) {
                Err(e) => Err(e),
                Ok((arena, more)) => Ok((arenas.push(arena), more)),
            },
        }
    }
}

proof fn lemma_arenas_error(
    image: ImageModel,
    order: Seq<u32>,
    code: Seq<(u32, usize)>,
    data: Seq<(u32, usize)>,
    n: int,
    m: int,
)
    requires
        0 <= n <= m,
        arenas_state(image, order, code, data, n) is Err,
    ensures
        arenas_state(image, order, code, data, m) == arenas_state(image, order, code, data, n),
    decreases m,
{
    if n < m {
        lemma_arenas_error(image, order, code, data, n, m - 1);
    }
}

/// What an image's arenas hold: the arenas and the sites in the order of their generations, and the
/// generation of the next arena.
pub struct ArenasView {
    pub arenas: Seq<ArenaView>,
    pub sites: Seq<(u64, PlacementView)>,
    pub next_generation: u32,
}

/// What an image's arenas hold.
pub open spec fn scanned(image: ImageModel) -> Result<ArenasView, PrepatchError> {
    match found_segments(image.segments, image.segments.len() as int) {
        Err(e) => Err(e),
        Ok((code, data)) => {
            let order = sorted_form::<u32>(generations(code));
            if order != sorted_form::<u32>(generations(data)) {
                Err(PrepatchError::GenerationMismatch)
            } else {
                match arenas_state(image, order, code, data, order.len() as int) {
                    Err(e) => Err(e),
                    Ok((arenas, sites)) => if order.len() == 0 {
                        Ok(ArenasView { arenas, sites, next_generation: 0 })
                    } else if order.last() == u32::MAX {
                        Err(PrepatchError::GenerationOverflow)
                    } else {
                        Ok(
                            ArenasView {
                                arenas,
                                sites,
                                next_generation: (order.last() + 1) as u32,
                            },
                        )
                    },
                }
            }
        },
    }
}

/// The generations of found segments in order.
fn sort_generations(found: &[(u32, usize)]) -> (r: Vec<u32>)
    ensures
        r@ == sorted_form::<u32>(generations(found@)),
{
    let mut all: Vec<u32> = Vec::new();
    let mut i: usize = 0;
    while i < found.len()
        invariant
            i <= found@.len(),
            all@ == generations(found@).subrange(0, i as int),
        decreases found@.len() - i,
    {
        all.push(found[i].0);
        assert(all@ =~= generations(found@).subrange(0, i + 1));
        i = i + 1;
    }
    assert(all@ =~= generations(found@));
    let places: Vec<usize> = distinct_order(&all);
    let mut r: Vec<u32> = Vec::new();
    i = 0;
    while i < places.len()
        invariant
            i <= places@.len(),
            forall|k: int| 0 <= k < places@.len() ==> (#[trigger] places@[k]) < all@.len(),
            r@ == keys_at(all@, places@).subrange(0, i as int),
        decreases places@.len() - i,
    {
        r.push(all[places[i]]);
        assert(r@ =~= keys_at(all@, places@).subrange(0, i + 1));
        i = i + 1;
    }
    assert(keys(all@) =~= all@);
    assert(r@ =~= keys_at(all@, places@));
    r
}

fn same_generations(a: &[u32], b: &[u32]) -> (r: bool)
    ensures
        r == (a@ == b@),
{
    if a.len() != b.len() {
        return false;
    }
    let mut i: usize = 0;
    while i < a.len()
        invariant
            i <= a@.len(),
            a@.len() == b@.len(),
            forall|k: int| 0 <= k < i ==> a@[k] == b@[k],
        decreases a@.len() - i,
    {
        if a[i] != b[i] {
            assert(a@[i as int] != b@[i as int]);
            return false;
        }
        i = i + 1;
    }
    assert(a@ =~= b@);
    true
}

/// Find the segment of a generation that is among the found ones.
fn find_segment(segments: &[Segment], found: &[(u32, usize)], generation: u32) -> (r: usize)
    requires
        generations(found@).contains(generation),
        forall|i: int| 0 <= i < found@.len() ==> (#[trigger] found@[i]).1 < segments@.len(),
    ensures
        r < segments@.len(),
        segments@[r as int] == segment_of(segments@, found@, generation),
{
    let ghost all = generations(found@);
    proof {
        all.index_of_first_ensures(generation);
    }
    let mut i: usize = 0;
    while i < found.len()
        invariant
            i <= found@.len(),
            all == generations(found@),
            all.contains(generation),
            forall|k: int| 0 <= k < i ==> all[k] != generation,
            forall|k: int| 0 <= k < found@.len() ==> (#[trigger] found@[k]).1 < segments@.len(),
        decreases found@.len() - i,
    {
        assert(all[i as int] == found@[i as int].0);
        if found[i].0 == generation {
            proof {
                all.index_of_first_ensures(generation);
            }
            return found[i].1;
        }
        i = i + 1;
    }
    assert(false);
    0
}

/// What an image's arenas hold.
pub struct Arenas {
    pub arenas: Vec<ExistingArena>,
    pub sites: Vec<Site>,
    pub next_generation: u32,
}

impl View for Arenas {
    type V = ArenasView;

    open spec fn view(&self) -> ArenasView {
        ArenasView {
            arenas: arena_views(self.arenas@),
            sites: site_views(self.sites@),
            next_generation: self.next_generation,
        }
    }
}

/// Read the arenas of an image, and check that every site in them is installed.
pub fn scan_arenas(image: &MachOImage) -> (r: Result<Arenas, PrepatchError>)
    ensures
        match r {
            Ok(arenas) => scanned(image@) == Ok::<ArenasView, PrepatchError>(arenas@),
            Err(e) => scanned(image@) == Err::<ArenasView, PrepatchError>(e),
        },
{
    let segments: &[Segment] = image.segments();
    let (code, data) = find_segments(segments)?;
    let order: Vec<u32> = sort_generations(&code);
    let other: Vec<u32> = sort_generations(&data);
    if !same_generations(&order, &other) {
        return Err(PrepatchError::GenerationMismatch);
    }
    proof {
        assert(segments.len() <= usize::MAX);
        lemma_found_places(segments@, segments@.len() as int);
        lemma_sorted_form_exists::<u32>(generations(code@));
        lemma_sorted_form_exists::<u32>(generations(data@));
    }
    let mut arenas: Vec<ExistingArena> = Vec::new();
    let mut sites: Vec<Site> = Vec::new();
    let mut i: usize = 0;
    assert(arena_views(arenas@) =~= Seq::empty());
    assert(site_views(sites@) =~= Seq::empty());
    while i < order.len()
        invariant
            i <= order@.len(),
            segments@ == image@.segments,
            found_segments(segments@, segments@.len() as int) == Ok::<
                (Seq<(u32, usize)>, Seq<(u32, usize)>),
                PrepatchError,
            >((code@, data@)),
            order@ == sorted_form::<u32>(generations(code@)),
            order@ == sorted_form::<u32>(generations(data@)),
            same_keys(order@, generations(code@)),
            same_keys(order@, generations(data@)),
            forall|k: int| 0 <= k < code@.len() ==> (#[trigger] code@[k]).1 < segments@.len(),
            forall|k: int| 0 <= k < data@.len() ==> (#[trigger] data@[k]).1 < segments@.len(),
            arenas_state(image@, order@, code@, data@, i as int) == Ok::<
                (Seq<ArenaView>, Seq<(u64, PlacementView)>),
                PrepatchError,
            >((arena_views(arenas@), site_views(sites@))),
        decreases order@.len() - i,
    {
        let generation: u32 = order[i];
        assert(order@.contains(generation));
        let code_at: usize = find_segment(segments, &code, generation);
        let data_at: usize = find_segment(segments, &data, generation);
        let ghost before = arena_views(arenas@);
        match check_arena(image, generation, &segments[code_at], &segments[data_at], &mut sites) {
            Ok(arena) => {
                arenas.push(arena);
                assert(arena_views(arenas@) =~= before.push(arena@));
            },
            Err(e) => {
                proof {
                    lemma_arenas_error(
                        image@,
                        order@,
                        code@,
                        data@,
                        i + 1,
                        order@.len() as int,
                    );
                }
                return Err(e);
            },
        }
        i = i + 1;
    }
    let next_generation: u32 = if order.len() == 0 {
        0
    } else {
        match order[order.len() - 1].checked_add(1) {
            Some(generation) => generation,
            None => return Err(PrepatchError::GenerationOverflow),
        }
    };
    Ok(Arenas { arenas, sites, next_generation })
}

/// Whether a placement is the one that its record and its slot give its target.
pub open spec fn is_sited(site: (u64, PlacementView)) -> bool {
    placement_of(site.0, site.1.record, site.1.slot) == Ok::<PlacementView, PrepatchError>(site.1)
}

/// Whether a site's branch is at its target.
pub open spec fn is_installed(image: ImageModel, site: (u64, PlacementView)) -> bool {
    &&& is_protected(image, site.0, 4, RX)
    &&& b_code(site.0, site.1.gateway) matches Ok(code) && image.bytes(site.0, 4) == Ok::<
        Seq<u8>,
        MachOError,
    >(le32(code))
}

/// Whether sites are where they say and installed, and each target has one.
pub open spec fn are_sites(image: ImageModel, sites: Seq<(u64, PlacementView)>) -> bool {
    &&& forall|k: int|
        0 <= k < sites.len() ==> is_sited(#[trigger] sites[k]) && is_installed(image, sites[k])
    &&& forall|i: int, k: int|
        0 <= i < k < sites.len() ==> (#[trigger] sites[i]).0 != (#[trigger] sites[k]).0
}

proof fn lemma_records_sites(
    image: ImageModel,
    generation: u32,
    code: u64,
    data: u64,
    before: Seq<(u64, PlacementView)>,
    n: int,
)
    requires
        0 <= n <= u32::MAX,
        are_sites(image, before),
    ensures
        records_state(image, generation, code, data, before, n) matches Ok((free, sites))
            ==> are_sites(image, sites),
    decreases n,
{
    if n > 0 {
        lemma_records_sites(image, generation, code, data, before, n - 1);
        match records_state(image, generation, code, data, before, n - 1) {
            Ok((free, sites)) => {
                match record_state(image, generation, code, data, (n - 1) as u32) {
                    Ok(Some((target, p))) => {
                        if !site_targets(sites).contains(target) {
                            let more = sites.push((target, p));
                            assert forall|i: int, k: int| 0 <= i < k < more.len() implies (
                            #[trigger] more[i]).0 != (#[trigger] more[k]).0 by {
                                assert(site_targets(sites)[i] == sites[i].0);
                            }
                        }
                    },
                    _ => {},
                }
            },
            _ => {},
        }
    }
}

proof fn lemma_arenas_sites(
    image: ImageModel,
    order: Seq<u32>,
    code: Seq<(u32, usize)>,
    data: Seq<(u32, usize)>,
    n: int,
)
    ensures
        arenas_state(image, order, code, data, n) matches Ok((arenas, sites)) ==> are_sites(
            image,
            sites,
        ),
    decreases n,
{
    if n > 0 {
        lemma_arenas_sites(image, order, code, data, n - 1);
        match arenas_state(image, order, code, data, n - 1) {
            Ok((arenas, sites)) => {
                let c = segment_of(image.segments, code, order[n - 1]);
                let d = segment_of(image.segments, data, order[n - 1]);
                match image.bytes(c.vmaddr, ARENA_HEADER_SIZE as int) {
                    Ok(header) => {
                        lemma_records_sites(
                            image,
                            order[n - 1],
                            c.vmaddr,
                            d.vmaddr,
                            sites,
                            u32_at(header, 4) as int,
                        );
                    },
                    Err(_) => {},
                }
            },
            Err(_) => {},
        }
    }
}

/// Every site that a scan finds is installed: its target is executable and branches to its gateway,
/// which is the one that its record and its slot give. No target has two sites.
pub proof fn law_scanned_sites_are_installed(image: ImageModel)
    ensures
        scanned(image) matches Ok(found) ==> are_sites(image, found.sites),
{
    match found_segments(image.segments, image.segments.len() as int) {
        Ok((code, data)) => {
            let order = sorted_form::<u32>(generations(code));
            lemma_arenas_sites(image, order, code, data, order.len() as int);
        },
        Err(_) => {},
    }
}

} // verus!
