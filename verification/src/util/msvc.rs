//! Static recovery of targets from MSVC-generated member-pointer helpers and thunks.

pub mod arm;
pub mod imports;
pub mod running;
pub mod x64;

use vstd::prelude::*;
use crate::bytes::{get_u64, u64_at};
use crate::text::{string_from_chars, to_chars};
use crate::util::objfile::{
    file_arch, file_format, file_sections, read_arch, read_format, read_sections, section_views,
    Format, ImageArch, ImageSection,
};
use self::arm::{
    add_of, adrp_of, arm64_add_immediate, arm64_adrp, arm64_import_slot, arm64_jump,
    arm64_jump_target, arm64_load, arm64_vcall_slot, arm_at, decode_arm64,
    decode_arm64_import_thunk_iat, decode_arm64_vcall_slot, in_page, load_of, ArmInstruction,
};
use self::imports::{
    collect_pe_iat_symbols, find_slot, import_slots, slot_symbol, slot_views, ImportError,
};
use self::x64::{
    decode_x64_import_thunk_iat, decode_x64_vcall_slot, read_x64, x64_import_slot, x64_jump,
    x64_jump_target, x64_step, x64_vcall_slot, X64Mnemonic, X64Operand, X64Step,
};

verus! {

/// How many bytes of a materializer are looked at.
pub const HELPER_WINDOW: usize = 192;

/// How many jumps are followed.
pub const JUMP_LIMIT: u32 = 8;

/// An image in which targets are looked for.
pub struct Image {
    /// Whether it is a PE image.
    pub pe: bool,
    pub arch: ImageArch,
    pub sections: Vec<ImageSection>,
}

/// An image as a plain value.
pub struct ImageView {
    pub pe: bool,
    pub arch: ImageArch,
    pub sections: Seq<(u64, Option<Seq<u8>>)>,
}

impl View for Image {
    type V = ImageView;

    open spec fn view(&self) -> ImageView {
        ImageView { pe: self.pe, arch: self.arch, sections: section_views(self.sections@) }
    }
}

/// The image that a file holds; nothing where it cannot be parsed.
pub open spec fn image_of(data: Seq<u8>) -> Option<ImageView> {
    match (file_format(data), file_arch(data), file_sections(data)) {
        (Some(format), Some(arch), Some(sections)) => Some(
            ImageView { pe: format == Format::Pe, arch, sections },
        ),
        _ => None,
    }
}

impl Image {
    /// Read the image that a file holds.
    pub fn read(data: &[u8]) -> (r: Option<Image>)
        ensures
            match r {
                Some(image) => image_of(data@) == Some(image@),
                None => image_of(data@) is None,
            },
    {
        let pe: bool = match read_format(data) {
            Some(Format::Pe) => true,
            Some(_) => false,
            None => return None,
        };
        match (read_arch(data), read_sections(data)) {
            (Some(arch), Some(sections)) => Some(Image { pe, arch, sections }),
            _ => None,
        }
    }
}

/// The bytes from an address on, in the first of the sections from `i` on that holds it.
pub open spec fn bytes_from(sections: Seq<(u64, Option<Seq<u8>>)>, address: u64, i: int) -> Option<
    Seq<u8>,
>
    decreases sections.len() - i,
{
    if i < 0 || i >= sections.len() {
        None
    } else {
        match sections[i].1 {
            Some(data) => if address >= sections[i].0 && address - sections[i].0 < data.len() {
                Some(data.subrange(address - sections[i].0, data.len() as int))
            } else {
                bytes_from(sections, address, i + 1)
            },
            None => bytes_from(sections, address, i + 1),
        }
    }
}

/// The bytes from an address on, to the end of the section that holds it.
pub open spec fn bytes_at(image: ImageView, address: u64) -> Option<Seq<u8>> {
    bytes_from(image.sections, address, 0)
}

/// Find the bytes from an address on.
pub fn image_bytes_at(image: &Image, address: u64) -> (r: Option<&[u8]>)
    ensures
        match r {
            Some(bytes) => bytes_at(image@, address) == Some(bytes@) && bytes@.len() > 0,
            None => bytes_at(image@, address) is None,
        },
{
    let ghost all = section_views(image.sections@);
    let mut i: usize = 0;
    while i < image.sections.len()
        invariant
            i <= image.sections@.len(),
            all == section_views(image.sections@),
            bytes_from(all, address, i as int) == bytes_from(all, address, 0),
        decreases image.sections@.len() - i,
    {
        let start: u64 = image.sections[i].address;
        assert(all[i as int].0 == start);
        match &image.sections[i].data {
            Some(data) => {
                assert(all[i as int].1 == Some(data@));
                if address >= start && address - start < data.len() as u64 {
                    return Some(&data[(address - start) as usize..data.len()]);
                }
            },
            None => {
                assert(all[i as int].1 is None);
            },
        }
        i = i + 1;
    }
    None
}

/// Where the code at an address jumps to.
pub open spec fn jump_at(image: ImageView, address: u64, bytes: Seq<u8>) -> Option<u64> {
    match image.arch {
        ImageArch::X86_64 => x64_jump(address, bytes),
        ImageArch::Aarch64 => arm64_jump(address, bytes),
        _ => None,
    }
}

/// Where the jumps from an address lead to, of which at most `left` are followed.
pub open spec fn followed(image: ImageView, address: u64, left: int) -> Option<u64>
    decreases left,
{
    if left <= 0 {
        None
    } else {
        match bytes_at(image, address) {
            None => None,
            Some(bytes) => match jump_at(image, address, bytes) {
                None => Some(address),
                Some(target) => if target == address {
                    None
                } else {
                    followed(image, target, left - 1)
                },
            },
        }
    }
}

/// Follow the jump islands emitted by MSVC incremental linking. Both metadata function pointers and
/// compiler-generated vcall thunks can initially point at these linker-generated stubs.
pub fn follow_jumps(image: &Image, start: u64) -> (r: Option<u64>)
    ensures
        r == followed(image@, start, JUMP_LIMIT as int),
{
    let mut address: u64 = start;
    let mut left: u32 = JUMP_LIMIT;
    while left > 0
        invariant
            followed(image@, address, left as int) == followed(image@, start, JUMP_LIMIT as int),
        decreases left,
    {
        let bytes: &[u8] = match image_bytes_at(image, address) {
            Some(bytes) => bytes,
            None => return None,
        };
        let target: Option<u64> = match image.arch {
            ImageArch::X86_64 => x64_jump_target(address, bytes),
            ImageArch::Aarch64 => arm64_jump_target(address, bytes),
            _ => None,
        };
        match target {
            None => return Some(address),
            Some(target) => {
                if target == address {
                    return None;
                }
                address = target;
            },
        }
        left = left - 1;
    }
    None
}

/// Where jumps were followed to, the code does not jump on.
pub proof fn law_followed_jumps_end(image: ImageView, start: u64, left: int)
    ensures
        followed(image, start, left) matches Some(end) ==> bytes_at(image, end) matches Some(bytes)
            && jump_at(image, end, bytes) is None,
    decreases left,
{
    if left > 0 {
        match bytes_at(image, start) {
            Some(bytes) => match jump_at(image, start, bytes) {
                Some(target) => {
                    law_followed_jumps_end(image, target, left - 1);
                },
                None => {},
            },
            None => {},
        }
    }
}

/// A statically recovered generalized pointer-to-member target.
pub enum MemberTarget {
    Symbol(String),
    VirtualSlot(u64),
}

/// A target as a plain value.
pub enum TargetView {
    Symbol(Seq<char>),
    VirtualSlot(u64),
}

impl View for MemberTarget {
    type V = TargetView;

    open spec fn view(&self) -> TargetView {
        match self {
            MemberTarget::Symbol(name) => TargetView::Symbol(name@),
            MemberTarget::VirtualSlot(slot) => TargetView::VirtualSlot(*slot),
        }
    }
}

/// An optional target as a plain value.
pub open spec fn target_view(target: Option<MemberTarget>) -> Option<TargetView> {
    match target {
        Some(target) => Some(target@),
        None => None,
    }
}

/// What the import slot and the virtual slot of a thunk tell: the import's symbol where it has one,
/// and else the virtual slot.
pub open spec fn chosen_target(
    slots: Seq<(u64, Seq<char>)>,
    iat: Option<u64>,
    virtual_slot: Option<u64>,
) -> Option<TargetView> {
    let symbol = match iat {
        Some(address) => slot_symbol(slots, address),
        None => None,
    };
    match (symbol, virtual_slot) {
        (Some(name), _) => Some(TargetView::Symbol(name)),
        (None, Some(slot)) => Some(TargetView::VirtualSlot(slot)),
        (None, None) => None,
    }
}

/// The target of the thunk at an address.
pub open spec fn member_target(
    image: ImageView,
    slots: Seq<(u64, Seq<char>)>,
    start: u64,
) -> Option<TargetView> {
    match followed(image, start, JUMP_LIMIT as int) {
        None => None,
        Some(address) => match bytes_at(image, address) {
            None => None,
            Some(bytes) => match image.arch {
                ImageArch::X86_64 => chosen_target(
                    slots,
                    x64_import_slot(address, bytes),
                    x64_vcall_slot(address, bytes),
                ),
                ImageArch::Aarch64 => chosen_target(
                    slots,
                    arm64_import_slot(address, bytes),
                    arm64_vcall_slot(bytes),
                ),
                _ => None,
            },
        },
    }
}

/// The number that stands at an address.
pub open spec fn word_at(image: ImageView, address: u64) -> Option<u64> {
    match bytes_at(image, address) {
        Some(bytes) => if bytes.len() >= 8 {
            Some(u64_at(bytes, 0))
        } else {
            None
        },
        None => None,
    }
}

fn read_word(image: &Image, address: u64) -> (r: Option<u64>)
    ensures
        r == word_at(image@, address),
{
    match image_bytes_at(image, address) {
        Some(bytes) => {
            if bytes.len() >= 8 {
                Some(get_u64(bytes, 0))
            } else {
                None
            }
        },
        None => None,
    }
}

/// The address that an instruction of an x86-64 materializer stores.
pub open spec fn x64_stored(image: ImageView, step: X64Step) -> Option<u64> {
    match (step.instruction.mnemonic, step.instruction.op1) {
        (X64Mnemonic::Lea, X64Operand::Memory) => if step.operands.ip_relative {
            Some(step.operands.ip_relative_address)
        } else {
            None
        },
        (X64Mnemonic::Mov, X64Operand::Memory) => if step.operands.ip_relative {
            word_at(image, step.operands.ip_relative_address)
        } else {
            None
        },
        (X64Mnemonic::Mov, X64Operand::Immediate64) => Some(step.operands.immediate64),
        _ => None,
    }
}

fn find_x64_stored(image: &Image, step: &X64Step) -> (r: Option<u64>)
    ensures
        r == x64_stored(image@, *step),
{
    match (step.instruction.mnemonic, step.instruction.op1) {
        (X64Mnemonic::Lea, X64Operand::Memory) => if step.operands.ip_relative {
            Some(step.operands.ip_relative_address)
        } else {
            None
        },
        (X64Mnemonic::Mov, X64Operand::Memory) => if step.operands.ip_relative {
            read_word(image, step.operands.ip_relative_address)
        } else {
            None
        },
        (X64Mnemonic::Mov, X64Operand::Immediate64) => Some(step.operands.immediate64),
        _ => None,
    }
}

/// The target of an optional address.
pub open spec fn target_of(
    image: ImageView,
    slots: Seq<(u64, Seq<char>)>,
    stored: Option<u64>,
) -> Option<TargetView> {
    match stored {
        Some(address) => member_target(image, slots, address),
        None => None,
    }
}

/// The first target that an x86-64 materializer stores.
pub open spec fn x64_materialized(
    image: ImageView,
    slots: Seq<(u64, Seq<char>)>,
    ip: u64,
    bytes: Seq<u8>,
) -> Option<TargetView>
    decreases bytes.len(),
{
    match x64_step(ip, bytes) {
        None => None,
        Some(step) => if bytes.len() == 0 || step.instruction.mnemonic == X64Mnemonic::Ret
            || step.instruction.len == 0 || step.instruction.len > bytes.len() {
            None
        } else {
            match target_of(image, slots, x64_stored(image, step)) {
                Some(target) => Some(target),
                None => x64_materialized(
                    image,
                    slots,
                    step.instruction.next_ip,
                    bytes.subrange(step.instruction.len as int, bytes.len() as int),
                ),
            }
        },
    }
}

/// The address that two instructions of an AArch64 materializer store.
pub open spec fn arm64_stored(
    image: ImageView,
    page_register: u16,
    page: u64,
    second: ArmInstruction,
) -> Option<u64> {
    match (add_of(second), load_of(second)) {
        (Some((target, base, offset)), _) if page_register == base && target != 31 => in_page(
            page,
            offset,
        ),
        (_, Some((target, base, offset))) if page_register == base && target != 31 => match in_page(
            page,
            offset,
        ) {
            Some(address) => word_at(image, address),
            None => None,
        },
        _ => None,
    }
}

fn find_arm64_stored(image: &Image, page_register: u16, page: u64, second: &ArmInstruction) -> (r:
    Option<u64>)
    ensures
        r == arm64_stored(image@, page_register, page, *second),
{
    match arm64_add_immediate(second) {
        Some((target, base, offset)) => {
            if page_register == base && target != 31 {
                return page.checked_add(offset);
            }
        },
        None => {},
    }
    match arm64_load(second) {
        Some((target, base, offset)) => {
            if page_register == base && target != 31 {
                return match page.checked_add(offset) {
                    Some(address) => read_word(image, address),
                    None => None,
                };
            }
        },
        None => {},
    }
    None
}

/// The first target that an AArch64 materializer stores, from `offset` on and before `end`.
pub open spec fn arm64_materialized(
    image: ImageView,
    slots: Seq<(u64, Seq<char>)>,
    helper: u64,
    bytes: Seq<u8>,
    offset: int,
    end: int,
) -> Option<TargetView>
    decreases
            if offset < end {
                end - offset
            } else {
                0
            },
{
    if offset >= end || helper + offset > u64::MAX {
        None
    } else {
        match (arm_at(bytes, offset), arm_at(bytes, offset + 4)) {
            (Some(first), Some(second)) => {
                let stored = match adrp_of(first, (helper + offset) as u64) {
                    Some((register, page)) => arm64_stored(image, register, page, second),
                    None => None,
                };
                match target_of(image, slots, stored) {
                    Some(target) => Some(target),
                    None => arm64_materialized(image, slots, helper, bytes, offset + 4, end),
                }
            },
            _ => None,
        }
    }
}

/// How far into an AArch64 materializer pairs of instructions are looked at.
pub open spec fn arm64_window(len: int) -> int {
    let window = if len < HELPER_WINDOW {
        len
    } else {
        HELPER_WINDOW as int
    };
    window - window % 4 - 4
}

/// The beginning of an x86-64 materializer.
pub open spec fn x64_window(bytes: Seq<u8>) -> Seq<u8> {
    if bytes.len() < HELPER_WINDOW {
        bytes
    } else {
        bytes.subrange(0, HELPER_WINDOW as int)
    }
}

/// The target that a materializer stores.
pub open spec fn materialized(
    image: ImageView,
    slots: Seq<(u64, Seq<char>)>,
    materialize: u64,
) -> Option<TargetView> {
    if !image.pe || !(image.arch == ImageArch::X86_64 || image.arch == ImageArch::Aarch64)
        || materialize == 0 {
        None
    } else {
        match followed(image, materialize, JUMP_LIMIT as int) {
            None => None,
            Some(helper) => match bytes_at(image, helper) {
                None => None,
                Some(bytes) => match image.arch {
                    ImageArch::X86_64 => x64_materialized(image, slots, helper, x64_window(bytes)),
                    ImageArch::Aarch64 => arm64_materialized(
                        image,
                        slots,
                        helper,
                        bytes,
                        0,
                        arm64_window(bytes.len() as int),
                    ),
                    _ => None,
                },
            },
        }
    }
}

/// PE import information shared while decoding all member hooks in one library.
pub struct MemberPointerDecoder {
    pub iat_symbols: Vec<(u64, String)>,
}

impl Default for MemberPointerDecoder {
    fn default() -> (r: Self)
        ensures
            r.iat_symbols@.len() == 0,
    {
        MemberPointerDecoder { iat_symbols: Vec::new() }
    }
}

impl MemberPointerDecoder {
    /// The import address table.
    pub open spec fn slots(&self) -> Seq<(u64, Seq<char>)> {
        slot_views(self.iat_symbols@)
    }

    /// Read the import information of an image.
    pub fn new(data: &[u8]) -> (r: Result<Self, ImportError>)
        ensures
            match r {
                Ok(decoder) => import_slots(data@) == Ok::<Seq<(u64, Seq<char>)>, ImportError>(
                    decoder.slots(),
                ),
                Err(e) => import_slots(data@) == Err::<Seq<(u64, Seq<char>)>, ImportError>(e),
            },
    {
        let iat_symbols: Vec<(u64, String)> = collect_pe_iat_symbols(data)?;
        Ok(MemberPointerDecoder { iat_symbols })
    }

    fn choose_target(&self, iat: Option<u64>, virtual_slot: Option<u64>) -> (r: Option<
        MemberTarget,
    >)
        ensures
            target_view(r) == chosen_target(self.slots(), iat, virtual_slot),
    {
        match iat {
            Some(address) => match find_slot(&self.iat_symbols, address) {
                Some(i) => {
                    let name: String = string_from_chars(&to_chars(&self.iat_symbols[i].1));
                    return Some(MemberTarget::Symbol(name));
                },
                None => {},
            },
            None => {},
        }
        match virtual_slot {
            Some(slot) => Some(MemberTarget::VirtualSlot(slot)),
            None => None,
        }
    }

    /// Recover the target of the thunk at an address.
    pub fn decode_member_target(&self, image: &Image, start: u64) -> (r: Option<MemberTarget>)
        ensures
            target_view(r) == member_target(image@, self.slots(), start),
    {
        let address: u64 = match follow_jumps(image, start) {
            Some(address) => address,
            None => return None,
        };
        let bytes: &[u8] = match image_bytes_at(image, address) {
            Some(bytes) => bytes,
            None => return None,
        };
        match image.arch {
            ImageArch::X86_64 => self.choose_target(
                decode_x64_import_thunk_iat(address, bytes),
                decode_x64_vcall_slot(address, bytes),
            ),
            ImageArch::Aarch64 => self.choose_target(
                decode_arm64_import_thunk_iat(address, bytes),
                decode_arm64_vcall_slot(bytes),
            ),
            _ => None,
        }
    }

    fn decode_x64_materializer(&self, image: &Image, helper: u64, bytes: &[u8]) -> (r: Option<
        MemberTarget,
    >)
        ensures
            target_view(r) == x64_materialized(image@, self.slots(), helper, bytes@),
    {
        let mut ip: u64 = helper;
        let mut at: usize = 0;
        assert(bytes@.subrange(0, bytes@.len() as int) =~= bytes@);
        while at < bytes.len()
            invariant
                at <= bytes@.len(),
                x64_materialized(
                    image@,
                    self.slots(),
                    ip,
                    bytes@.subrange(at as int, bytes@.len() as int),
                ) == x64_materialized(image@, self.slots(), helper, bytes@),
            decreases bytes@.len() - at,
        {
            let rest: &[u8] = &bytes[at..bytes.len()];
            let step: X64Step = match read_x64(ip, rest) {
                Some(step) => step,
                None => return None,
            };
            match step.instruction.mnemonic {
                X64Mnemonic::Ret => return None,
                _ => {},
            }
            match find_x64_stored(image, &step) {
                Some(address) => {
                    let found: Option<MemberTarget> = self.decode_member_target(image, address);
                    if found.is_some() {
                        return found;
                    }
                },
                None => {},
            }
            proof {
                let len = step.instruction.len as int;
                assert(rest@.subrange(len, rest@.len() as int) =~= bytes@.subrange(
                    at + len,
                    bytes@.len() as int,
                ));
            }
            ip = step.instruction.next_ip;
            at = at + step.instruction.len;
        }
        None
    }

    fn decode_arm64_materializer(&self, image: &Image, helper: u64, bytes: &[u8]) -> (r: Option<
        MemberTarget,
    >)
        ensures
            target_view(r) == arm64_materialized(
                image@,
                self.slots(),
                helper,
                bytes@,
                0,
                arm64_window(bytes@.len() as int),
            ),
    {
        let window: usize = if bytes.len() < HELPER_WINDOW {
            bytes.len()
        } else {
            HELPER_WINDOW
        };
        let limit: usize = window - window % 4;
        let ghost end = arm64_window(bytes@.len() as int);
        let mut offset: usize = 0;
        while offset + 4 < limit
            invariant
                limit <= HELPER_WINDOW,
                end == limit - 4,
                end == arm64_window(bytes@.len() as int),
                offset <= HELPER_WINDOW,
                arm64_materialized(image@, self.slots(), helper, bytes@, offset as int, end)
                    == arm64_materialized(image@, self.slots(), helper, bytes@, 0, end),
            decreases limit - offset,
        {
            let address: u64 = match helper.checked_add(offset as u64) {
                Some(address) => address,
                None => return None,
            };
            let first: ArmInstruction = match decode_arm64(bytes, offset) {
                Some(i) => i,
                None => return None,
            };
            let second: ArmInstruction = match decode_arm64(bytes, offset + 4) {
                Some(i) => i,
                None => return None,
            };
            match arm64_adrp(&first, address) {
                Some((register, page)) => {
                    match find_arm64_stored(image, register, page, &second) {
                        Some(address) => {
                            let found: Option<MemberTarget> = self.decode_member_target(
                                image,
                                address,
                            );
                            if found.is_some() {
                                return found;
                            }
                        },
                        None => {},
                    }
                },
                None => {},
            }
            offset = offset + 4;
        }
        None
    }

    /// Recover the target stored by an extended member hook's materializer, without executing the
    /// library.
    pub fn decode_materializer(&self, image: &Image, materialize: u64) -> (r: Option<MemberTarget>)
        ensures
            target_view(r) == materialized(image@, self.slots(), materialize),
    {
        if !image.pe || materialize == 0 {
            return None;
        }
        match image.arch {
            ImageArch::X86_64 | ImageArch::Aarch64 => {},
            _ => return None,
        }
        let helper: u64 = match follow_jumps(image, materialize) {
            Some(helper) => helper,
            None => return None,
        };
        let bytes: &[u8] = match image_bytes_at(image, helper) {
            Some(bytes) => bytes,
            None => return None,
        };
        match image.arch {
            ImageArch::X86_64 => {
                if bytes.len() < HELPER_WINDOW {
                    self.decode_x64_materializer(image, helper, bytes)
                } else {
                    self.decode_x64_materializer(image, helper, &bytes[0..HELPER_WINDOW])
                }
            },
            _ => self.decode_arm64_materializer(image, helper, bytes),
        }
    }
}

} // verus!
