//! Hook sites: where a gateway stands and what its record holds.

use vstd::prelude::*;
use crate::bytes::{
    align_int, group_field_len, le32, lemma_align_int, lemma_u32_at_le, push_bytes, push_u32,
    u32_at,
};
use crate::util::arm64::{
    add_code, add_x16_pageoff, adrp_code, adrp_x16, b, b_code, br_x16, bti_c, cbz_code, cbz_x16,
    ldar_x16_x16, Arm64Error,
};
use super::PrepatchError;

verus! {

broadcast use group_field_len;

pub const ARENA_MAGIC: [u8; 4] = [0x50, 0x41, 0x30, 0x31];

pub const SITE_MAGIC: [u8; 4] = [0x50, 0x53, 0x30, 0x31];

/// `__PPATCH`
pub const CODE_SEGMENT_PREFIX: [u8; 8] = [0x5f, 0x5f, 0x50, 0x50, 0x41, 0x54, 0x43, 0x48];

/// `__PPDATA`
pub const DATA_SEGMENT_PREFIX: [u8; 8] = [0x5f, 0x5f, 0x50, 0x50, 0x44, 0x41, 0x54, 0x41];

/// `magic[4]`, `capacity[4]`, `record_size[4]`, `reserved[4]`.
pub const ARENA_HEADER_SIZE: u64 = 16;

pub const SITE_HEADER_SIZE: u64 = 12;

/// Site header, gateway, and four bytes of padding.
pub const RECORD_SIZE: u64 = 44;

pub const PAGE_SIZE: u64 = 0x4000;

/// As many records as one page holds.
pub const DEFAULT_ARENA_CAPACITY: u32 = 372;

/// The size of an arena's code: its header and its records.
pub open spec fn arena_code_size(capacity: int) -> int {
    ARENA_HEADER_SIZE + capacity * RECORD_SIZE
}

/// How many records an arena for `required` hook sites has: at least a page of them, and as many as
/// fill its pages.
pub open spec fn capacity_for(required: u32) -> Result<u32, PrepatchError> {
    let needed = if required > DEFAULT_ARENA_CAPACITY {
        required as int
    } else {
        DEFAULT_ARENA_CAPACITY as int
    };
    let allocated = align_int(arena_code_size(needed), PAGE_SIZE as int);
    let capacity = (allocated - ARENA_HEADER_SIZE) / RECORD_SIZE as int;
    if capacity > u32::MAX {
        Err(PrepatchError::ArenaCapacity)
    } else {
        Ok(capacity as u32)
    }
}

/// The value rounded up to a multiple of `alignment`.
pub fn align_up(value: u64, alignment: u64) -> (r: Result<u64, PrepatchError>)
    requires
        alignment > 0,
    ensures
        match r {
            Ok(v) => v == align_int(value as int, alignment as int),
            Err(e) => e == PrepatchError::SegmentSize && align_int(value as int, alignment as int)
                > u64::MAX,
        },
{
    let remainder: u64 = value % alignment;
    if remainder == 0 {
        return Ok(value);
    }
    match value.checked_add(alignment - remainder) {
        Some(v) => Ok(v),
        None => Err(PrepatchError::SegmentSize),
    }
}

/// Find how many records an arena has.
pub fn arena_capacity(required: u32) -> (r: Result<u32, PrepatchError>)
    ensures
        r == capacity_for(required),
{
    let needed: u64 = if required > DEFAULT_ARENA_CAPACITY {
        required as u64
    } else {
        DEFAULT_ARENA_CAPACITY as u64
    };
    let size: u64 = ARENA_HEADER_SIZE + needed * RECORD_SIZE;
    proof {
        lemma_align_int(size as int, PAGE_SIZE as int);
    }
    let allocated: u64 = align_up(size, PAGE_SIZE)?;
    let capacity: u64 = (allocated - ARENA_HEADER_SIZE) / RECORD_SIZE;
    if capacity > u32::MAX as u64 {
        return Err(PrepatchError::ArenaCapacity);
    }
    Ok(capacity as u32)
}

/// Between a number and less than a page behind it, there is one whole number of pages.
proof fn lemma_whole_pages(v: int, pages: int)
    requires
        0 <= v <= pages < v + 0x4000,
        pages % 0x4000 == 0,
    ensures
        align_int(v, 0x4000) == pages,
{
    lemma_align_int(v, 0x4000);
}

/// An arena has room for what is required and for a page of sites at least, and no further record
/// would fit its pages.
#[verifier::spinoff_prover]
pub proof fn law_arena_fills_its_pages(required: u32)
    requires
        capacity_for(required) is Ok,
    ensures
        ({
            let capacity = capacity_for(required)->Ok_0;
            let pages = align_int(arena_code_size(capacity as int), PAGE_SIZE as int);
            &&& capacity >= required
            &&& capacity >= DEFAULT_ARENA_CAPACITY
            &&& arena_code_size(capacity as int) <= pages < arena_code_size(capacity + 1)
        }),
{
    let needed = if required > DEFAULT_ARENA_CAPACITY {
        required as int
    } else {
        DEFAULT_ARENA_CAPACITY as int
    };
    let size = arena_code_size(needed);
    lemma_align_int(size, PAGE_SIZE as int);
    let allocated = align_int(size, PAGE_SIZE as int);
    let capacity = (allocated - ARENA_HEADER_SIZE) / RECORD_SIZE as int;
    assert(capacity >= needed);
    let filled = arena_code_size(capacity);
    assert(filled <= allocated < filled + RECORD_SIZE);
    assert(allocated % 0x4000 == 0);
    lemma_whole_pages(filled, allocated);
}

/// The difference of two addresses, where a signed 32-bit field holds it.
pub open spec fn delta_of(from: u64, to: u64) -> Option<int> {
    if i32::MIN <= to - from <= i32::MAX {
        Some(to - from)
    } else {
        None
    }
}

/// The bits of a signed 32-bit field.
pub open spec fn delta_bits(delta: int) -> u32 {
    if delta < 0 {
        (delta + 0x1_0000_0000) as u32
    } else {
        delta as u32
    }
}

/// What the bits of a signed 32-bit field stand for.
pub open spec fn delta_value(bits: u32) -> int {
    if bits >= 0x8000_0000 {
        bits - 0x1_0000_0000
    } else {
        bits as int
    }
}

/// The difference of two addresses, as the bits of a signed 32-bit field.
pub fn signed_delta(from: u64, to: u64) -> (r: Option<u32>)
    ensures
        match r {
            Some(bits) => delta_of(from, to) matches Some(delta) && bits == delta_bits(delta),
            None => delta_of(from, to) is None,
        },
{
    let delta: i128 = to as i128 - from as i128;
    if delta < -0x8000_0000 || delta > 0x7fff_ffff {
        None
    } else if delta < 0 {
        Some((delta + 0x1_0000_0000) as u32)
    } else {
        Some(delta as u32)
    }
}

/// An address and a signed 32-bit field, added.
pub open spec fn moved(address: u64, bits: u32) -> Option<u64> {
    if 0 <= address + delta_value(bits) <= u64::MAX {
        Some((address + delta_value(bits)) as u64)
    } else {
        None
    }
}

/// Add a signed 32-bit field to an address.
pub fn add_delta(address: u64, bits: u32) -> (r: Option<u64>)
    ensures
        r == moved(address, bits),
{
    let delta: i128 = if bits >= 0x8000_0000 {
        bits as i128 - 0x1_0000_0000
    } else {
        bits as i128
    };
    let sum: i128 = address as i128 + delta;
    if 0 <= sum && sum <= u64::MAX as i128 {
        Some(sum as u64)
    } else {
        None
    }
}

/// A hexadecimal digit.
pub open spec fn hex_digit(v: int) -> u8 {
    if v < 10 {
        (0x30 + v) as u8
    } else {
        (0x37 + v) as u8
    }
}

/// The lowest `n` hexadecimal digits of a number, the highest first.
pub open spec fn hex_digits(v: int, n: int) -> Seq<u8>
    decreases n,
{
    if n <= 0 {
        Seq::empty()
    } else {
        hex_digits(v / 16, n - 1).push(hex_digit(v % 16))
    }
}

/// The name of an arena's segment: a prefix and the generation.
pub open spec fn name_of_segment(prefix: Seq<u8>, generation: u32) -> Seq<u8> {
    prefix + hex_digits(generation as int, 8)
}

/// The value of a hexadecimal digit.
pub open spec fn hex_value(c: u8) -> Option<int> {
    if 0x30 <= c <= 0x39 {
        Some(c - 0x30)
    } else if 0x41 <= c <= 0x46 {
        Some(c - 0x37)
    } else if 0x61 <= c <= 0x66 {
        Some(c - 0x57)
    } else {
        None
    }
}

/// The number that hexadecimal digits stand for.
pub open spec fn hex_number(digits: Seq<u8>) -> Option<int>
    decreases digits.len(),
{
    if digits.len() == 0 {
        Some(0)
    } else {
        match (hex_number(digits.drop_last()), hex_value(digits.last())) {
            (Some(rest), Some(v)) => Some(16 * rest + v),
            _ => None,
        }
    }
}

/// The generation that a segment name holds behind a prefix.
pub open spec fn generation_in(name: Seq<u8>, prefix: Seq<u8>) -> Option<u32> {
    if name.subrange(0, 8) != prefix {
        None
    } else {
        let suffix = name.subrange(8, 16);
        let digits = if suffix[0] == 0x2b {
            suffix.drop_first()
        } else {
            suffix
        };
        match hex_number(digits) {
            Some(v) => Some(v as u32),
            None => None,
        }
    }
}

fn push_hex_digits(out: &mut Vec<u8>, value: u32)
    ensures
        final(out)@ == old(out)@ + hex_digits(value as int, 8),
{
    let mut digits: [u8; 8] = [0; 8];
    let mut rest: u32 = value;
    let mut i: usize = 8;
    while i > 0
        invariant
            i <= 8,
            hex_digits(rest as int, i as int) + digits@.subrange(i as int, 8) == hex_digits(
                value as int,
                8,
            ),
        decreases i,
    {
        let v: u8 = (rest % 16) as u8;
        let digit: u8 = if v < 10 {
            0x30 + v
        } else {
            0x37 + v
        };
        let ghost before_set = digits@;
        digits[i - 1] = digit;
        proof {
            assert(digit == hex_digit((rest % 16) as int));
            assert(digits@.subrange(i - 1, 8) =~= seq![digit] + before_set.subrange(i as int, 8));
            assert(hex_digits((rest / 16) as int, i - 1) + digits@.subrange(i - 1, 8)
                =~= hex_digits(rest as int, i as int) + before_set.subrange(i as int, 8));
        }
        rest = rest / 16;
        i = i - 1;
    }
    assert(digits@.subrange(0, 8) =~= digits@);
    assert(hex_digits(rest as int, 0) + digits@ =~= digits@);
    push_bytes(out, &digits);
}

/// The name of an arena's segment.
pub fn segment_name(prefix: &[u8; 8], generation: u32) -> (r: Vec<u8>)
    ensures
        r@ == name_of_segment(prefix@, generation),
{
    let mut name: Vec<u8> = Vec::new();
    push_bytes(&mut name, prefix);
    push_hex_digits(&mut name, generation);
    assert(name@ =~= name_of_segment(prefix@, generation));
    name
}

fn find_hex_value(c: u8) -> (r: Option<u8>)
    ensures
        match r {
            Some(v) => hex_value(c) == Some(v as int) && v < 16,
            None => hex_value(c) is None,
        },
{
    if 0x30 <= c && c <= 0x39 {
        Some(c - 0x30)
    } else if 0x41 <= c && c <= 0x46 {
        Some(c - 0x37)
    } else if 0x61 <= c && c <= 0x66 {
        Some(c - 0x57)
    } else {
        None
    }
}

proof fn lemma_hex_number_none(digits: Seq<u8>, n: int)
    requires
        0 <= n <= digits.len(),
        hex_number(digits.subrange(0, n)) is None,
    ensures
        hex_number(digits) is None,
    decreases digits.len(),
{
    if n < digits.len() {
        assert(digits.drop_last().subrange(0, n) =~= digits.subrange(0, n));
        lemma_hex_number_none(digits.drop_last(), n);
    } else {
        assert(digits.subrange(0, n) =~= digits);
    }
}

/// Find the generation that a segment name holds behind a prefix.
pub fn segment_generation(name: &[u8; 16], prefix: &[u8; 8]) -> (r: Option<u32>)
    ensures
        r == generation_in(name@, prefix@),
{
    let mut i: usize = 0;
    let ghost head = name@.subrange(0, 8);
    while i < 8
        invariant
            i <= 8,
            head == name@.subrange(0, 8),
            forall|k: int| 0 <= k < i ==> name@[k] == prefix@[k],
        decreases 8 - i,
    {
        if name[i] != prefix[i] {
            assert(head[i as int] != prefix@[i as int]);
            return None;
        }
        i = i + 1;
    }
    assert(head =~= prefix@);
    let ghost suffix = name@.subrange(8, 16);
    let start: usize = if name[8] == 0x2b {
        9
    } else {
        8
    };
    let ghost digits = name@.subrange(start as int, 16);
    assert(digits =~= if suffix[0] == 0x2b {
        suffix.drop_first()
    } else {
        suffix
    });
    let mut value: u64 = 0;
    i = start;
    assert(digits.subrange(0, 0) =~= Seq::empty());
    while i < 16
        invariant
            8 <= start <= i <= 16,
            digits == name@.subrange(start as int, 16),
            hex_number(digits.subrange(0, i - start)) == Some(value as int),
            value < (if i == 8 {
                1u64
            } else if i == 9 {
                16u64
            } else if i == 10 {
                0x100u64
            } else if i == 11 {
                0x1000u64
            } else if i == 12 {
                0x1_0000u64
            } else if i == 13 {
                0x10_0000u64
            } else if i == 14 {
                0x100_0000u64
            } else if i == 15 {
                0x1000_0000u64
            } else {
                0x1_0000_0000u64
            }),
            generation_in(name@, prefix@) == (match hex_number(digits) {
                Some(v) => Some(v as u32),
                None => None,
            }),
        decreases 16 - i,
    {
        proof {
            let now = digits.subrange(0, i - start + 1);
            assert(now.drop_last() =~= digits.subrange(0, i - start));
            assert(now.last() == name@[i as int]);
        }
        match find_hex_value(name[i]) {
            Some(v) => {
                value = 16 * value + v as u64;
            },
            None => {
                proof {
                    lemma_hex_number_none(digits, i - start + 1);
                }
                return None;
            },
        }
        i = i + 1;
    }
    assert(digits.subrange(0, digits.len() as int) =~= digits);
    Some(value as u32)
}

proof fn lemma_hex_digits_number(v: int, n: int)
    requires
        0 <= v,
        0 <= n,
        v < pow16(n),
    ensures
        hex_digits(v, n).len() == n,
        hex_number(hex_digits(v, n)) == Some(v),
        n > 0 ==> hex_digits(v, n)[0] != 0x2b,
    decreases n,
{
    if n > 0 {
        lemma_hex_digits_number(v / 16, n - 1);
        let digits = hex_digits(v, n);
        assert(digits.drop_last() =~= hex_digits(v / 16, n - 1));
        assert(digits.last() == hex_digit(v % 16));
        assert(hex_value(hex_digit(v % 16)) == Some(v % 16));
        if n > 1 {
            assert(digits[0] == hex_digits(v / 16, n - 1)[0]);
        }
    }
}

spec fn pow16(n: int) -> int
    decreases n,
{
    if n <= 0 {
        1
    } else {
        16 * pow16(n - 1)
    }
}

/// The generation in a segment's name is the one that it was named for.
pub proof fn law_segment_name_holds_its_generation(prefix: Seq<u8>, generation: u32)
    requires
        prefix.len() == 8,
    ensures
        name_of_segment(prefix, generation).len() == 16,
        generation_in(name_of_segment(prefix, generation), prefix) == Some(generation),
{
    reveal_with_fuel(pow16, 9);
    lemma_hex_digits_number(generation as int, 8);
    let name = name_of_segment(prefix, generation);
    assert(name.subrange(0, 8) =~= prefix);
    assert(name.subrange(8, 16) =~= hex_digits(generation as int, 8));
}

/// A gateway and where its parts stand.
#[derive(Clone, Copy, Debug)]
pub struct Placement {
    pub record: u64,
    pub gateway: u64,
    pub stub: u64,
    pub slot: u64,
    pub instructions: [u32; 7],
}

/// A gateway as a plain value.
pub struct PlacementView {
    pub record: u64,
    pub gateway: u64,
    pub stub: u64,
    pub slot: u64,
    pub instructions: Seq<u32>,
}

impl View for Placement {
    type V = PlacementView;

    open spec fn view(&self) -> PlacementView {
        PlacementView {
            record: self.record,
            gateway: self.gateway,
            stub: self.stub,
            slot: self.slot,
            instructions: self.instructions@,
        }
    }
}

/// The instructions of a gateway: through the slot to the hook where one is installed, and else on
/// to the stub, which goes to the original code.
pub open spec fn gateway_code(target: u64, gateway: u64, slot: u64) -> Result<
    Seq<u32>,
    PrepatchError,
> {
    let stub = (gateway + 20) as u64;
    match adrp_code(gateway, slot) {
        Err(e) => Err(PrepatchError::Encoding(e)),
        Ok(adrp) => match cbz_code((gateway + 12) as u64, stub) {
            Err(e) => Err(PrepatchError::Encoding(e)),
            Ok(cbz) => if gateway + 24 > u64::MAX {
                Err(PrepatchError::StubAddress)
            } else {
                match b_code((stub + 4) as u64, (target + 4) as u64) {
                    Err(e) => Err(PrepatchError::Encoding(e)),
                    Ok(back) => Ok(
                        seq![
                            adrp,
                            add_code(slot),
                            0xc8df_fe10,
                            cbz,
                            0xd61f_0200,
                            0xd503_245f,
                            back,
                        ],
                    ),
                }
            },
        },
    }
}

/// The gateway for a target whose record and slot stand at given addresses.
pub open spec fn placement_of(target: u64, record: u64, slot: u64) -> Result<
    PlacementView,
    PrepatchError,
> {
    let gateway = record + SITE_HEADER_SIZE;
    if gateway > u64::MAX {
        Err(PrepatchError::GatewayAddress)
    } else if gateway + 20 > u64::MAX {
        Err(PrepatchError::StubAddress)
    } else if target + 4 > u64::MAX {
        Err(PrepatchError::OriginalAddress)
    } else {
        match b_code(target, gateway as u64) {
            Err(e) => Err(PrepatchError::Encoding(e)),
            Ok(_) => if delta_of(gateway as u64, target) is None {
                Err(PrepatchError::TargetRange)
            } else if delta_of(gateway as u64, slot) is None {
                Err(PrepatchError::SlotRange)
            } else {
                match gateway_code(target, gateway as u64, slot) {
                    Err(e) => Err(e),
                    Ok(instructions) => Ok(
                        PlacementView {
                            record,
                            gateway: gateway as u64,
                            stub: (gateway + 20) as u64,
                            slot,
                            instructions,
                        },
                    ),
                }
            },
        }
    }
}

/// Encode an instruction, or say why it cannot be.
fn encoded(r: Result<u32, Arm64Error>) -> (e: Result<u32, PrepatchError>)
    ensures
        e == match r {
            Ok(code) => Ok::<u32, PrepatchError>(code),
            Err(e) => Err(PrepatchError::Encoding(e)),
        },
{
    match r {
        Ok(code) => Ok(code),
        Err(e) => Err(PrepatchError::Encoding(e)),
    }
}

/// Make the gateway for a target.
pub fn make_placement(target: u64, record: u64, slot: u64) -> (r: Result<Placement, PrepatchError>)
    ensures
        match r {
            Ok(p) => placement_of(target, record, slot) == Ok::<PlacementView, PrepatchError>(p@),
            Err(e) => placement_of(target, record, slot) == Err::<PlacementView, PrepatchError>(
                e,
            ),
        },
{
    let gateway: u64 = match record.checked_add(SITE_HEADER_SIZE) {
        Some(gateway) => gateway,
        None => return Err(PrepatchError::GatewayAddress),
    };
    let stub: u64 = match gateway.checked_add(20) {
        Some(stub) => stub,
        None => return Err(PrepatchError::StubAddress),
    };
    let original: u64 = match target.checked_add(4) {
        Some(original) => original,
        None => return Err(PrepatchError::OriginalAddress),
    };
    let _entry: u32 = encoded(b(target, gateway))?;
    if signed_delta(gateway, target).is_none() {
        return Err(PrepatchError::TargetRange);
    }
    if signed_delta(gateway, slot).is_none() {
        return Err(PrepatchError::SlotRange);
    }
    let adrp: u32 = encoded(adrp_x16(gateway, slot))?;
    let cbz: u32 = encoded(cbz_x16(gateway + 12, stub))?;
    let back_from: u64 = match stub.checked_add(4) {
        Some(address) => address,
        None => return Err(PrepatchError::StubAddress),
    };
    let back: u32 = encoded(b(back_from, original))?;
    let instructions: [u32; 7] = [
        adrp,
        add_x16_pageoff(slot),
        ldar_x16_x16(),
        cbz,
        br_x16(),
        bti_c(),
        back,
    ];
    proof {
        assert(instructions@ =~= seq![
            adrp,
            add_code(slot),
            0xc8df_fe10,
            cbz,
            0xd61f_0200,
            0xd503_245f,
            back,
        ]);
    }
    Ok(Placement { record, gateway, stub, slot, instructions })
}

/// The words, each as four bytes.
pub open spec fn word_bytes(words: Seq<u32>) -> Seq<u8>
    decreases words.len(),
{
    if words.len() == 0 {
        Seq::empty()
    } else {
        word_bytes(words.drop_last()) + le32(words.last())
    }
}

/// The record of a hook site: magic, the distances from the gateway to the target and to the slot,
/// the gateway's instructions, and padding.
pub open spec fn record_of(target: u64, p: PlacementView) -> Result<Seq<u8>, PrepatchError> {
    match (delta_of(p.gateway, target), delta_of(p.gateway, p.slot)) {
        (None, _) => Err(PrepatchError::TargetRange),
        (_, None) => Err(PrepatchError::SlotRange),
        (Some(to_target), Some(to_slot)) => Ok(
            SITE_MAGIC@ + le32(delta_bits(to_target)) + le32(delta_bits(to_slot)) + word_bytes(
                p.instructions,
            ) + le32(0),
        ),
    }
}

proof fn lemma_word_bytes_len(words: Seq<u32>)
    ensures
        word_bytes(words).len() == 4 * words.len(),
    decreases words.len(),
{
    broadcast use group_field_len;

    if words.len() > 0 {
        lemma_word_bytes_len(words.drop_last());
    }
}

pub(crate) proof fn lemma_record_len(target: u64, p: PlacementView)
    requires
        p.instructions.len() == 7,
    ensures
        record_of(target, p) matches Ok(record) ==> record.len() == RECORD_SIZE,
{
    broadcast use group_field_len;

    lemma_word_bytes_len(p.instructions);
    if let (Some(to_target), Some(to_slot)) = (
        delta_of(p.gateway, target),
        delta_of(p.gateway, p.slot),
    ) {
        assert((SITE_MAGIC@ + le32(delta_bits(to_target)) + le32(delta_bits(to_slot)) + word_bytes(
            p.instructions,
        ) + le32(0)).len() == 44);
    }
}

/// Write the record of a hook site.
pub fn encode_record(target: u64, placement: &Placement) -> (r: Result<Vec<u8>, PrepatchError>)
    ensures
        match r {
            Ok(record) => record_of(target, placement@) == Ok::<Seq<u8>, PrepatchError>(record@)
                && record@.len() == RECORD_SIZE,
            Err(e) => record_of(target, placement@) == Err::<Seq<u8>, PrepatchError>(e),
        },
{
    let to_target: u32 = match signed_delta(placement.gateway, target) {
        Some(bits) => bits,
        None => return Err(PrepatchError::TargetRange),
    };
    let to_slot: u32 = match signed_delta(placement.gateway, placement.slot) {
        Some(bits) => bits,
        None => return Err(PrepatchError::SlotRange),
    };
    let mut record: Vec<u8> = Vec::new();
    push_bytes(&mut record, &SITE_MAGIC);
    push_u32(&mut record, to_target);
    push_u32(&mut record, to_slot);
    let ghost head = record@;
    let ghost words = placement.instructions@;
    let mut i: usize = 0;
    assert(words.subrange(0, 0) =~= Seq::empty());
    assert(record@ =~= head + word_bytes(words.subrange(0, 0)));
    while i < 7
        invariant
            i <= 7,
            words == placement.instructions@,
            record@.len() == head.len() + 4 * i,
            record@ == head + word_bytes(words.subrange(0, i as int)),
        decreases 7 - i,
    {
        let ghost now = words.subrange(0, i + 1);
        proof {
            assert(now.drop_last() =~= words.subrange(0, i as int));
            assert(now.last() == words[i as int]);
        }
        push_u32(&mut record, placement.instructions[i]);
        assert(record@ =~= head + word_bytes(now));
        i = i + 1;
    }
    push_u32(&mut record, 0);
    proof {
        assert(words.subrange(0, 7) =~= words);
        assert(head =~= SITE_MAGIC@ + le32(to_target) + le32(to_slot));
        assert(record@ =~= SITE_MAGIC@ + le32(to_target) + le32(to_slot) + word_bytes(words) + le32(
            0,
        ));
    }
    Ok(record)
}

/// A record reads back: the distances that it holds lead from the gateway to the target and to the
/// slot that it was written for.
pub proof fn law_record_reads_back(target: u64, record: u64, slot: u64)
    requires
        placement_of(target, record, slot) is Ok,
    ensures
        ({
            let p = placement_of(target, record, slot)->Ok_0;
            let bytes = record_of(target, p)->Ok_0;
            &&& record_of(target, p) is Ok
            &&& bytes.subrange(0, 4) == SITE_MAGIC@
            &&& moved(p.gateway, u32_at(bytes, 4)) == Some(target)
            &&& moved(p.gateway, u32_at(bytes, 8)) == Some(slot)
        }),
{
    let p = placement_of(target, record, slot)->Ok_0;
    let bytes = record_of(target, p)->Ok_0;
    let to_target = delta_bits(delta_of(p.gateway, target)->Some_0);
    let to_slot = delta_bits(delta_of(p.gateway, slot)->Some_0);
    assert(bytes.subrange(0, 4) =~= SITE_MAGIC@);
    assert(bytes.subrange(4, 8) =~= le32(to_target));
    assert(bytes.subrange(8, 12) =~= le32(to_slot));
    lemma_u32_at_le(bytes, 4, to_target);
    lemma_u32_at_le(bytes, 8, to_slot);
}

} // verus!
