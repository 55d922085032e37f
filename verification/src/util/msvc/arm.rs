//! AArch64 instructions in MSVC-generated helpers.

use vstd::prelude::*;
use yaxpeax_arch::{Arch, Decoder, U8Reader};
use yaxpeax_arm::armv8::a64::{ARMv8, Opcode, Operand, SizeCode};

verus! {

/// Opcodes that are told apart.
#[derive(Clone, Copy, Debug, PartialEq, Eq, Structural)]
pub enum ArmOpcode {
    B,
    Br,
    Adrp,
    Add,
    Ldr,
    Other,
}

/// Operands that are told apart.
#[derive(Clone, Copy, Debug, PartialEq, Eq, Structural)]
pub enum ArmOperand {
    /// A 64-bit register, or the stack pointer.
    Register(u16),
    Immediate(u32),
    Imm64(u64),
    /// A number and how far it is shifted to the left.
    ImmShift(u16, u8),
    /// An offset from the instruction.
    PcOffset(i64),
    /// Base register, offset, and whether their sum is written back.
    PreIndex(u16, i32, bool),
    Other,
}

/// An instruction.
#[derive(Clone, Copy, Debug, PartialEq, Eq, Structural)]
pub struct ArmInstruction {
    pub opcode: ArmOpcode,
    pub op0: ArmOperand,
    pub op1: ArmOperand,
    pub op2: ArmOperand,
}

/// The instruction that `yaxpeax_arm` decodes, with its first three operands; nothing where it cannot.
pub uninterp spec fn arm_instruction(bytes: Seq<u8>) -> Option<ArmInstruction>;

/// `yaxpeax_arm::armv8::a64::InstDecoder::decode`: the opcode of the instruction, under the name of
/// the result.
#[verifier::external_body]
fn decode_opcode(bytes: &[u8]) -> (r: Option<ArmOpcode>)
    ensures
        match r {
            Some(opcode) => arm_instruction(bytes@) matches Some(i) && i.opcode == opcode,
            None => arm_instruction(bytes@) is None,
        },
{
    let i = <ARMv8 as Arch>::Decoder::default().decode(&mut U8Reader::new(bytes)).ok()?;
    Some(match i.opcode {
        Opcode::B => ArmOpcode::B,
        Opcode::BR => ArmOpcode::Br,
        Opcode::ADRP => ArmOpcode::Adrp,
        Opcode::ADD => ArmOpcode::Add,
        Opcode::LDR => ArmOpcode::Ldr,
        _ => ArmOpcode::Other,
    })
}

/// `yaxpeax_arm::armv8::a64::InstDecoder::decode`: the operands of the instruction, under the name of
/// the result.
#[verifier::external_body]
fn decode_operands(bytes: &[u8]) -> (r: Option<(ArmOperand, ArmOperand, ArmOperand)>)
    ensures
        match r {
            Some((op0, op1, op2)) => arm_instruction(bytes@) matches Some(i) && i.op0 == op0 && i.op1
                == op1 && i.op2 == op2,
            None => arm_instruction(bytes@) is None,
        },
{
    let operand = |operand: Operand| match operand {
        Operand::Register(SizeCode::X, n) | Operand::RegisterOrSP(SizeCode::X, n) => {
            ArmOperand::Register(n)
        }
        Operand::Immediate(v) => ArmOperand::Immediate(v),
        Operand::Imm64(v) => ArmOperand::Imm64(v),
        Operand::ImmShift(v, shift) => ArmOperand::ImmShift(v, shift),
        Operand::PCOffset(v) => ArmOperand::PcOffset(v),
        Operand::RegPreIndex(n, v, back) => ArmOperand::PreIndex(n, v, back),
        _ => ArmOperand::Other,
    };
    let i = <ARMv8 as Arch>::Decoder::default().decode(&mut U8Reader::new(bytes)).ok()?;
    Some((operand(i.operands[0]), operand(i.operands[1]), operand(i.operands[2])))
}

fn decode_word(bytes: &[u8]) -> (r: Option<ArmInstruction>)
    ensures
        r == arm_instruction(bytes@),
{
    match (decode_opcode(bytes), decode_operands(bytes)) {
        (Some(opcode), Some((op0, op1, op2))) => Some(ArmInstruction { opcode, op0, op1, op2 }),
        _ => None,
    }
}

/// The instruction that stands at `at`.
pub open spec fn arm_at(bytes: Seq<u8>, at: int) -> Option<ArmInstruction> {
    if at + 4 <= bytes.len() {
        arm_instruction(bytes.subrange(at, at + 4))
    } else {
        None
    }
}

/// Decode the instruction that stands at `at`.
pub(crate) fn decode_arm64(bytes: &[u8], at: usize) -> (r: Option<ArmInstruction>)
    requires
        at + 4 <= usize::MAX,
    ensures
        r == arm_at(bytes@, at as int),
{
    if at + 4 <= bytes.len() {
        decode_word(&bytes[at..at + 4])
    } else {
        None
    }
}

/// The register that an operand is.
pub open spec fn register_of(operand: ArmOperand) -> Option<u16> {
    match operand {
        ArmOperand::Register(n) => Some(n),
        _ => None,
    }
}

/// The register that an operand is.
pub fn arm64_register(operand: ArmOperand) -> (r: Option<u16>)
    ensures
        r == register_of(operand),
{
    match operand {
        ArmOperand::Register(n) => Some(n),
        _ => None,
    }
}

/// The number that an operand is. A number that is shifted by 64 bits or more is none.
pub open spec fn immediate_of(operand: ArmOperand) -> Option<u64> {
    match operand {
        ArmOperand::Immediate(v) => Some(v as u64),
        ArmOperand::Imm64(v) => Some(v),
        ArmOperand::ImmShift(v, shift) => if shift < 64 {
            Some((v as u64) << shift)
        } else {
            None
        },
        _ => None,
    }
}

/// The number that an operand is.
pub fn arm64_immediate(operand: ArmOperand) -> (r: Option<u64>)
    ensures
        r == immediate_of(operand),
{
    match operand {
        ArmOperand::Immediate(v) => Some(v as u64),
        ArmOperand::Imm64(v) => Some(v),
        ArmOperand::ImmShift(v, shift) => if shift < 64 {
            Some((v as u64) << shift)
        } else {
            None
        },
        _ => None,
    }
}

/// The address with a signed offset, where there is one.
pub open spec fn offset_address(address: int, offset: int) -> Option<u64> {
    if 0 <= address + offset <= u64::MAX {
        Some((address + offset) as u64)
    } else {
        None
    }
}

/// Add a signed offset to an address.
pub fn add_offset(address: u64, offset: i64) -> (r: Option<u64>)
    ensures
        r == offset_address(address as int, offset as int),
{
    let sum: i128 = address as i128 + offset as i128;
    if 0 <= sum && sum <= u64::MAX as i128 {
        Some(sum as u64)
    } else {
        None
    }
}

/// The register that an `adrp` sets, and the page that it sets it to.
pub open spec fn adrp_of(i: ArmInstruction, address: u64) -> Option<(u16, u64)> {
    if i.opcode != ArmOpcode::Adrp {
        None
    } else {
        match (register_of(i.op0), i.op1) {
            (Some(register), ArmOperand::PcOffset(offset)) => match offset_address(
                address - address % 0x1000,
                offset as int,
            ) {
                Some(page) => Some((register, page)),
                None => None,
            },
            _ => None,
        }
    }
}

/// The register that an `adrp` sets, and the page that it sets it to.
pub fn arm64_adrp(i: &ArmInstruction, address: u64) -> (r: Option<(u16, u64)>)
    ensures
        r == adrp_of(*i, address),
{
    match i.opcode {
        ArmOpcode::Adrp => {},
        _ => return None,
    }
    let register: u16 = match arm64_register(i.op0) {
        Some(register) => register,
        None => return None,
    };
    match i.op1 {
        ArmOperand::PcOffset(offset) => match add_offset(address - address % 0x1000, offset) {
            Some(page) => Some((register, page)),
            None => None,
        },
        _ => None,
    }
}

/// Target, base and number of an `add` of a number.
pub open spec fn add_of(i: ArmInstruction) -> Option<(u16, u16, u64)> {
    if i.opcode != ArmOpcode::Add {
        None
    } else {
        match (register_of(i.op0), register_of(i.op1), immediate_of(i.op2)) {
            (Some(target), Some(base), Some(v)) => Some((target, base, v)),
            _ => None,
        }
    }
}

/// Target, base and number of an `add` of a number.
pub fn arm64_add_immediate(i: &ArmInstruction) -> (r: Option<(u16, u16, u64)>)
    ensures
        r == add_of(*i),
{
    match i.opcode {
        ArmOpcode::Add => {},
        _ => return None,
    }
    match (arm64_register(i.op0), arm64_register(i.op1), arm64_immediate(i.op2)) {
        (Some(target), Some(base), Some(v)) => Some((target, base, v)),
        _ => None,
    }
}

/// Target, base and offset of a load without write-back.
pub open spec fn load_of(i: ArmInstruction) -> Option<(u16, u16, u64)> {
    if i.opcode != ArmOpcode::Ldr {
        None
    } else {
        match (register_of(i.op0), i.op1) {
            (Some(target), ArmOperand::PreIndex(base, offset, back)) => if !back && offset >= 0 {
                Some((target, base, offset as u64))
            } else {
                None
            },
            _ => None,
        }
    }
}

/// Target, base and offset of a load without write-back.
pub fn arm64_load(i: &ArmInstruction) -> (r: Option<(u16, u16, u64)>)
    ensures
        r == load_of(*i),
{
    match i.opcode {
        ArmOpcode::Ldr => {},
        _ => return None,
    }
    match (arm64_register(i.op0), i.op1) {
        (Some(target), ArmOperand::PreIndex(base, offset, back)) => if !back && offset >= 0 {
            Some((target, base, offset as u64))
        } else {
            None
        },
        _ => None,
    }
}

/// The register that a `br` goes to.
pub open spec fn branch_register_of(i: ArmInstruction) -> Option<u16> {
    if i.opcode == ArmOpcode::Br {
        register_of(i.op0)
    } else {
        None
    }
}

/// The register that a `br` goes to.
pub fn arm64_branch_register(i: &ArmInstruction) -> (r: Option<u16>)
    ensures
        r == branch_register_of(*i),
{
    match i.opcode {
        ArmOpcode::Br => arm64_register(i.op0),
        _ => None,
    }
}

/// The sum of a page and an offset into it, where there is one.
pub open spec fn in_page(page: u64, offset: u64) -> Option<u64> {
    offset_address(page as int, offset as int)
}

fn add_in_page(page: u64, offset: u64) -> (r: Option<u64>)
    ensures
        r == in_page(page, offset),
{
    page.checked_add(offset)
}

/// Where `adrp; add; br` goes.
pub open spec fn island_target(
    address: u64,
    first: ArmInstruction,
    second: Option<ArmInstruction>,
    third: Option<ArmInstruction>,
) -> Option<u64> {
    match (second, third) {
        (Some(second), Some(third)) => match (
            adrp_of(first, address),
            add_of(second),
            branch_register_of(third),
        ) {
            (Some((page_register, page)), Some((target, base, offset)), Some(branch)) => if page_register
                == base && target == branch {
                in_page(page, offset)
            } else {
                None
            },
            _ => None,
        },
        _ => None,
    }
}

/// Where the code at an address jumps to: by `b`, or by `adrp; add; br`.
pub open spec fn arm64_jump(address: u64, bytes: Seq<u8>) -> Option<u64> {
    match arm_at(bytes, 0) {
        None => None,
        Some(first) => match (first.opcode, first.op0) {
            (ArmOpcode::B, ArmOperand::PcOffset(offset)) => offset_address(
                address as int,
                offset as int,
            ),
            _ => island_target(address, first, arm_at(bytes, 4), arm_at(bytes, 8)),
        },
    }
}

/// Find where the code at an address jumps to.
pub fn arm64_jump_target(address: u64, bytes: &[u8]) -> (r: Option<u64>)
    ensures
        r == arm64_jump(address, bytes@),
{
    let first: ArmInstruction = match decode_arm64(bytes, 0) {
        Some(i) => i,
        None => return None,
    };
    match (first.opcode, first.op0) {
        (ArmOpcode::B, ArmOperand::PcOffset(offset)) => {
            return add_offset(address, offset);
        },
        _ => {},
    }
    let second: ArmInstruction = match decode_arm64(bytes, 4) {
        Some(i) => i,
        None => return None,
    };
    let third: ArmInstruction = match decode_arm64(bytes, 8) {
        Some(i) => i,
        None => return None,
    };
    match (
        arm64_adrp(&first, address),
        arm64_add_immediate(&second),
        arm64_branch_register(&third),
    ) {
        (Some((page_register, page)), Some((target, base, offset)), Some(branch)) => if page_register
            == base && target == branch {
            add_in_page(page, offset)
        } else {
            None
        },
        _ => None,
    }
}

/// The import slot of `adrp; ldr; br`.
pub open spec fn import_slot(
    address: u64,
    first: ArmInstruction,
    second: ArmInstruction,
    third: ArmInstruction,
) -> Option<u64> {
    match (adrp_of(first, address), load_of(second), branch_register_of(third)) {
        (Some((page_register, page)), Some((target, base, offset)), Some(branch)) => if page_register
            == base && target == branch {
            in_page(page, offset)
        } else {
            None
        },
        _ => None,
    }
}

/// The import slot that the thunk at an address goes through.
pub open spec fn arm64_import_slot(address: u64, bytes: Seq<u8>) -> Option<u64> {
    match (arm_at(bytes, 0), arm_at(bytes, 4), arm_at(bytes, 8)) {
        (Some(first), Some(second), Some(third)) => import_slot(address, first, second, third),
        _ => None,
    }
}

/// Find the import slot that the thunk at an address goes through.
pub fn decode_arm64_import_thunk_iat(address: u64, bytes: &[u8]) -> (r: Option<u64>)
    ensures
        r == arm64_import_slot(address, bytes@),
{
    match (decode_arm64(bytes, 0), decode_arm64(bytes, 4), decode_arm64(bytes, 8)) {
        (Some(first), Some(second), Some(third)) => match (
            arm64_adrp(&first, address),
            arm64_load(&second),
            arm64_branch_register(&third),
        ) {
            (Some((page_register, page)), Some((target, base, offset)), Some(branch)) => if page_register
                == base && target == branch {
                add_in_page(page, offset)
            } else {
                None
            },
            _ => None,
        },
        _ => None,
    }
}

/// The virtual slot of `ldr xN, [x0]; ldr xM, [xN, #slot]; br xM`.
pub open spec fn virtual_slot(
    first: ArmInstruction,
    second: ArmInstruction,
    third: ArmInstruction,
) -> Option<u64> {
    match (load_of(first), load_of(second), branch_register_of(third)) {
        (
            Some((vtable, this, this_offset)),
            Some((target, vtable_base, slot)),
            Some(branch),
        ) => if this == 0 && this_offset == 0 && vtable == vtable_base && target == branch {
            Some(slot)
        } else {
            None
        },
        _ => None,
    }
}

/// The virtual slot that a thunk calls.
pub open spec fn arm64_vcall_slot(bytes: Seq<u8>) -> Option<u64> {
    match (arm_at(bytes, 0), arm_at(bytes, 4), arm_at(bytes, 8)) {
        (Some(first), Some(second), Some(third)) => virtual_slot(first, second, third),
        _ => None,
    }
}

/// Decode `ldr xN, [x0]; ldr xM, [xN, #slot]; br xM`.
pub fn decode_arm64_vcall_slot(bytes: &[u8]) -> (r: Option<u64>)
    ensures
        r == arm64_vcall_slot(bytes@),
{
    match (decode_arm64(bytes, 0), decode_arm64(bytes, 4), decode_arm64(bytes, 8)) {
        (Some(first), Some(second), Some(third)) => match (
            arm64_load(&first),
            arm64_load(&second),
            arm64_branch_register(&third),
        ) {
            (
                Some((vtable, this, this_offset)),
                Some((target, vtable_base, slot)),
                Some(branch),
            ) => if this == 0 && this_offset == 0 && vtable == vtable_base && target == branch {
                Some(slot)
            } else {
                None
            },
            _ => None,
        },
        _ => None,
    }
}

} // verus!
