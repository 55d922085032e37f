//! x86-64 instructions in MSVC-generated helpers.

use iced_x86::{Decoder, DecoderOptions, Mnemonic, OpKind, Register};
use vstd::prelude::*;

verus! {

/// Mnemonics that are told apart.
#[derive(Clone, Copy, Debug, PartialEq, Eq, Structural)]
pub enum X64Mnemonic {
    Jmp,
    Lea,
    Mov,
    Ret,
    Other,
}

/// Operand kinds that are told apart.
#[derive(Clone, Copy, Debug, PartialEq, Eq, Structural)]
pub enum X64Operand {
    Register,
    Memory,
    Immediate64,
    NearBranch,
    Other,
}

/// Registers that are told apart.
#[derive(Clone, Copy, Debug, PartialEq, Eq, Structural)]
pub enum X64Register {
    Rax,
    Rcx,
    /// No register.
    Absent,
    Other,
}

/// What an instruction does.
#[derive(Clone, Copy, Debug, PartialEq, Eq, Structural)]
pub struct X64Instruction {
    /// How many bytes it takes.
    pub len: usize,
    /// The address behind it.
    pub next_ip: u64,
    pub mnemonic: X64Mnemonic,
    pub op0: X64Operand,
    pub op1: X64Operand,
}

/// What an instruction works on.
#[derive(Clone, Copy, Debug, PartialEq, Eq, Structural)]
pub struct X64Operands {
    /// The register of the first operand.
    pub op0_register: X64Register,
    pub memory_base: X64Register,
    pub memory_index: X64Register,
    pub displacement: u64,
    /// Whether the memory operand is relative to the instruction, and its address then.
    pub ip_relative: bool,
    pub ip_relative_address: u64,
    pub immediate64: u64,
    pub branch_target: u64,
}

/// An instruction with its operands.
#[derive(Clone, Copy, Debug, PartialEq, Eq, Structural)]
pub struct X64Step {
    pub instruction: X64Instruction,
    pub operands: X64Operands,
}

/// The instruction that `iced_x86::Decoder` decodes at an address, with its operands; nothing where it
/// is invalid.
pub uninterp spec fn x64_step(address: u64, bytes: Seq<u8>) -> Option<X64Step>;

/// `iced_x86::Decoder::decode`: the instruction at an address, under the name of the result. A valid
/// instruction takes at least one of the bytes and no more than there are.
#[verifier::external_body]
fn decode_x64(address: u64, bytes: &[u8]) -> (r: Option<X64Instruction>)
    ensures
        match r {
            Some(i) => x64_step(address, bytes@) matches Some(step) && step.instruction == i && 1
                <= i.len <= bytes@.len(),
            None => x64_step(address, bytes@) is None,
        },
{
    let operand = |kind: OpKind| match kind {
        OpKind::Register => X64Operand::Register,
        OpKind::Memory => X64Operand::Memory,
        OpKind::Immediate64 => X64Operand::Immediate64,
        OpKind::NearBranch16 | OpKind::NearBranch32 | OpKind::NearBranch64 => X64Operand::NearBranch,
        _ => X64Operand::Other,
    };
    let i = Decoder::with_ip(64, bytes, address, DecoderOptions::NONE).decode();
    let mnemonic = match i.mnemonic() {
        Mnemonic::Jmp => X64Mnemonic::Jmp, Mnemonic::Lea => X64Mnemonic::Lea, Mnemonic::Mov => X64Mnemonic::Mov, Mnemonic::Ret => X64Mnemonic::Ret, _ => X64Mnemonic::Other,
    };
    let (op0, op1) = (operand(i.op0_kind()), operand(i.op1_kind()));
    (!i.is_invalid()).then_some(X64Instruction { len: i.len(), next_ip: i.next_ip(), mnemonic, op0, op1 })
}

/// `iced_x86::Decoder::decode`: the operands of the instruction at an address, under the name of the
/// result. Of those of an invalid instruction nothing is said.
#[verifier::external_body]
fn decode_x64_operands(address: u64, bytes: &[u8]) -> (r: X64Operands)
    ensures
        x64_step(address, bytes@) matches Some(step) ==> step.operands == r,
{
    let register = |register: Register| match register {
        Register::RAX => X64Register::Rax,
        Register::RCX => X64Register::Rcx,
        Register::None => X64Register::Absent,
        _ => X64Register::Other,
    };
    let i = Decoder::with_ip(64, bytes, address, DecoderOptions::NONE).decode();
    X64Operands {
        op0_register: register(i.op0_register()), memory_base: register(i.memory_base()),
        memory_index: register(i.memory_index()), displacement: i.memory_displacement64(),
        ip_relative: i.is_ip_rel_memory_operand(), ip_relative_address: i.ip_rel_memory_address(),
        immediate64: i.immediate64(), branch_target: i.near_branch_target(),
    }
}

/// Decode the instruction at an address with its operands.
pub(crate) fn read_x64(address: u64, bytes: &[u8]) -> (r: Option<X64Step>)
    ensures
        r == x64_step(address, bytes@),
        r matches Some(step) ==> 1 <= step.instruction.len <= bytes@.len(),
{
    match decode_x64(address, bytes) {
        Some(instruction) => Some(
            X64Step { instruction, operands: decode_x64_operands(address, bytes) },
        ),
        None => None,
    }
}

/// Where a relative jump goes.
pub open spec fn jump_of(step: X64Step) -> Option<u64> {
    if step.instruction.mnemonic == X64Mnemonic::Jmp && step.instruction.op0
        == X64Operand::NearBranch {
        Some(step.operands.branch_target)
    } else {
        None
    }
}

/// Where a relative jump goes.
pub fn step_jump(step: &X64Step) -> (r: Option<u64>)
    ensures
        r == jump_of(*step),
{
    match (step.instruction.mnemonic, step.instruction.op0) {
        (X64Mnemonic::Jmp, X64Operand::NearBranch) => Some(step.operands.branch_target),
        _ => None,
    }
}

/// Where the code at an address jumps to.
pub open spec fn x64_jump(address: u64, bytes: Seq<u8>) -> Option<u64> {
    match x64_step(address, bytes) {
        Some(step) => jump_of(step),
        None => None,
    }
}

/// Find where the code at an address jumps to.
pub fn x64_jump_target(address: u64, bytes: &[u8]) -> (r: Option<u64>)
    ensures
        r == x64_jump(address, bytes@),
{
    match read_x64(address, bytes) {
        Some(step) => step_jump(&step),
        None => None,
    }
}

/// The import slot that an indirect jump goes through.
pub open spec fn slot_of(step: X64Step) -> Option<u64> {
    if step.instruction.mnemonic == X64Mnemonic::Jmp && step.instruction.op0 == X64Operand::Memory
        && step.operands.ip_relative {
        Some(step.operands.ip_relative_address)
    } else {
        None
    }
}

/// The import slot that an indirect jump goes through.
pub fn step_slot(step: &X64Step) -> (r: Option<u64>)
    ensures
        r == slot_of(*step),
{
    match (step.instruction.mnemonic, step.instruction.op0, step.operands.ip_relative) {
        (X64Mnemonic::Jmp, X64Operand::Memory, true) => Some(step.operands.ip_relative_address),
        _ => None,
    }
}

/// The import slot that the thunk at an address goes through.
pub open spec fn x64_import_slot(address: u64, bytes: Seq<u8>) -> Option<u64> {
    match x64_step(address, bytes) {
        Some(step) => slot_of(step),
        None => None,
    }
}

/// Find the import slot that the thunk at an address goes through.
pub fn decode_x64_import_thunk_iat(address: u64, bytes: &[u8]) -> (r: Option<u64>)
    ensures
        r == x64_import_slot(address, bytes@),
{
    match read_x64(address, bytes) {
        Some(step) => step_slot(&step),
        None => None,
    }
}

/// Whether an instruction is `mov rax, [rcx]`.
pub open spec fn loads_vtable(step: X64Step) -> bool {
    &&& step.instruction.mnemonic == X64Mnemonic::Mov
    &&& step.instruction.op0 == X64Operand::Register
    &&& step.operands.op0_register == X64Register::Rax
    &&& step.instruction.op1 == X64Operand::Memory
    &&& step.operands.memory_base == X64Register::Rcx
    &&& step.operands.memory_index == X64Register::Absent
    &&& step.operands.displacement == 0
}

/// Whether an instruction is `mov rax, [rcx]`.
pub fn step_loads_vtable(step: &X64Step) -> (r: bool)
    ensures
        r == loads_vtable(*step),
{
    let op: bool = match (
        step.instruction.mnemonic,
        step.instruction.op0,
        step.instruction.op1,
    ) {
        (X64Mnemonic::Mov, X64Operand::Register, X64Operand::Memory) => true,
        _ => false,
    };
    let registers: bool = match (
        step.operands.op0_register,
        step.operands.memory_base,
        step.operands.memory_index,
    ) {
        (X64Register::Rax, X64Register::Rcx, X64Register::Absent) => true,
        _ => false,
    };
    op && registers && step.operands.displacement == 0
}

/// The slot of `jmp qword ptr [rax + slot]`.
pub open spec fn called_slot(step: X64Step) -> Option<u64> {
    if step.instruction.mnemonic == X64Mnemonic::Jmp && step.instruction.op0 == X64Operand::Memory
        && step.operands.memory_base == X64Register::Rax && step.operands.memory_index
        == X64Register::Absent {
        Some(step.operands.displacement)
    } else {
        None
    }
}

/// The slot of `jmp qword ptr [rax + slot]`.
pub fn step_called_slot(step: &X64Step) -> (r: Option<u64>)
    ensures
        r == called_slot(*step),
{
    match (
        step.instruction.mnemonic,
        step.instruction.op0,
        step.operands.memory_base,
        step.operands.memory_index,
    ) {
        (X64Mnemonic::Jmp, X64Operand::Memory, X64Register::Rax, X64Register::Absent) => Some(
            step.operands.displacement,
        ),
        _ => None,
    }
}

/// The virtual slot of `mov rax, [rcx]; jmp qword ptr [rax + slot]`.
pub open spec fn x64_vcall_slot(address: u64, bytes: Seq<u8>) -> Option<u64> {
    match x64_step(address, bytes) {
        None => None,
        Some(first) => if !loads_vtable(first) || first.instruction.len > bytes.len() {
            None
        } else {
            match x64_step(
                first.instruction.next_ip,
                bytes.subrange(first.instruction.len as int, bytes.len() as int),
            ) {
                None => None,
                Some(second) => called_slot(second),
            }
        },
    }
}

/// Decode `mov rax, [rcx]; jmp qword ptr [rax + slot]`.
pub fn decode_x64_vcall_slot(address: u64, bytes: &[u8]) -> (r: Option<u64>)
    ensures
        r == x64_vcall_slot(address, bytes@),
{
    let first: X64Step = match read_x64(address, bytes) {
        Some(step) => step,
        None => return None,
    };
    if !step_loads_vtable(&first) {
        return None;
    }
    let rest: &[u8] = &bytes[first.instruction.len..bytes.len()];
    match read_x64(first.instruction.next_ip, rest) {
        Some(second) => step_called_slot(&second),
        None => None,
    }
}

} // verus!
