//! What the thunks that are recognised do when they run.

use vstd::prelude::*;
use crate::text::shown_text;
use crate::util::objfile::ImageArch;
use super::arm::{
    arm64_import_slot, arm64_jump, arm64_vcall_slot, arm_at, ArmInstruction, ArmOpcode, ArmOperand,
};
use super::imports::{descriptor_slots, import_thunks, slot_symbol, table_slots};
use super::x64::{
    x64_import_slot, x64_jump, x64_step, x64_vcall_slot, X64Mnemonic, X64Operand, X64Register,
    X64Step,
};
use super::{bytes_at, bytes_from, followed, jump_at, member_target, ImageView, TargetView};

verus! {

/// What an x86-64 core holds: `rax`, `rcx`, and where it goes on.
pub struct X64Core {
    pub rax: int,
    pub rcx: int,
    pub pc: int,
}

/// The core after an instruction, where that moves `rax` from memory behind `rcx` or jumps: to a place
/// that it names, or to what stands in memory behind `rax` or at a place that it names.
pub open spec fn x64_ran(step: X64Step, core: X64Core, memory: spec_fn(int) -> int) -> Option<
    X64Core,
> {
    let i = step.instruction;
    let o = step.operands;
    if i.mnemonic == X64Mnemonic::Mov && i.op0 == X64Operand::Register && o.op0_register
        == X64Register::Rax && i.op1 == X64Operand::Memory && o.memory_base == X64Register::Rcx
        && o.memory_index == X64Register::Absent {
        Some(
            X64Core {
                rax: memory(core.rcx + o.displacement),
                pc: i.next_ip as int,
                ..core
            },
        )
    } else if i.mnemonic == X64Mnemonic::Jmp && i.op0 == X64Operand::NearBranch {
        Some(X64Core { pc: o.branch_target as int, ..core })
    } else if i.mnemonic == X64Mnemonic::Jmp && i.op0 == X64Operand::Memory && o.ip_relative {
        Some(X64Core { pc: memory(o.ip_relative_address as int), ..core })
    } else if i.mnemonic == X64Mnemonic::Jmp && i.op0 == X64Operand::Memory && o.memory_base
        == X64Register::Rax && o.memory_index == X64Register::Absent {
        Some(X64Core { pc: memory(core.rax + o.displacement), ..core })
    } else {
        None
    }
}

/// A thunk with a virtual slot calls the function that stands there in the table that the object in
/// `rcx` begins with.
pub proof fn law_x64_thunk_calls_its_slot(
    address: u64,
    bytes: Seq<u8>,
    core: X64Core,
    memory: spec_fn(int) -> int,
)
    requires
        x64_vcall_slot(address, bytes) is Some,
        ({
            let first = x64_step(address, bytes)->Some_0;
            let second = x64_step(
                first.instruction.next_ip,
                bytes.subrange(first.instruction.len as int, bytes.len() as int),
            )->Some_0;
            // An address is not counted from the instruction and from a register at once.
            !second.operands.ip_relative
        }),
    ensures
        ({
            let first = x64_step(address, bytes)->Some_0;
            let second = x64_step(
                first.instruction.next_ip,
                bytes.subrange(first.instruction.len as int, bytes.len() as int),
            )->Some_0;
            let slot = x64_vcall_slot(address, bytes)->Some_0;
            x64_ran(first, core, memory) matches Some(middle) && x64_ran(
                second,
                middle,
                memory,
            ) matches Some(end) && end.pc == memory(memory(core.rcx) + slot)
        }),
{
}

/// A thunk with an import slot goes where the slot leads, and a jump goes to its target.
pub proof fn law_x64_thunk_goes_through_its_slot(
    address: u64,
    bytes: Seq<u8>,
    core: X64Core,
    memory: spec_fn(int) -> int,
)
    ensures
        x64_import_slot(address, bytes) matches Some(slot) ==> {
            let step = x64_step(address, bytes)->Some_0;
            x64_ran(step, core, memory) matches Some(end) && end.pc == memory(slot as int)
        },
        x64_jump(address, bytes) matches Some(target) ==> {
            let step = x64_step(address, bytes)->Some_0;
            x64_ran(step, core, memory) matches Some(end) && end.pc == target
        },
{
}

/// Whether an instruction jumps to what stands in memory at an address that it names.
pub open spec fn jumps_through(step: X64Step, slot: u64) -> bool {
    &&& step.instruction.mnemonic == X64Mnemonic::Jmp
    &&& step.instruction.op0 == X64Operand::Memory
    &&& step.operands.ip_relative
    &&& step.operands.ip_relative_address == slot
}

/// A jump through a slot is recognised, and so is a jump to an address.
pub proof fn law_x64_jumps_are_recognised(address: u64, bytes: Seq<u8>, step: X64Step, at: u64)
    requires
        x64_step(address, bytes) == Some(step),
    ensures
        jumps_through(step, at) ==> x64_import_slot(address, bytes) == Some(at),
        step.instruction.mnemonic == X64Mnemonic::Jmp && step.instruction.op0
            == X64Operand::NearBranch && step.operands.branch_target == at ==> x64_jump(
            address,
            bytes,
        ) == Some(at),
{
}

/// What an AArch64 core holds: its registers, and where it goes on.
pub struct ArmCore {
    pub x: spec_fn(u16) -> int,
    pub pc: int,
}

pub open spec fn with_register(core: ArmCore, register: u16, value: int) -> ArmCore {
    ArmCore {
        x: |r: u16|
            if r == register {
                value
            } else {
                (core.x)(r)
            },
        pc: core.pc + 4,
    }
}

/// The number that an operand stands for.
pub open spec fn is_number(operand: ArmOperand, value: int) -> bool {
    match operand {
        ArmOperand::Immediate(v) => value == v,
        ArmOperand::Imm64(v) => value == v,
        ArmOperand::ImmShift(v, shift) => shift < 64 && value == (v as u64) << shift,
        _ => false,
    }
}

/// The core after an instruction: `adrp` sets a register to a page behind that of the instruction, `add`
/// adds a number, `ldr` loads from memory behind a register, `b` goes on behind the instruction, and
/// `br` goes on where a register says.
pub open spec fn arm_ran(
    i: ArmInstruction,
    core: ArmCore,
    memory: spec_fn(int) -> int,
) -> Option<ArmCore> {
    match (i.opcode, i.op0, i.op1) {
        (ArmOpcode::Adrp, ArmOperand::Register(r), ArmOperand::PcOffset(offset)) => Some(
            with_register(core, r, core.pc - core.pc % 4096 + offset),
        ),
        (ArmOpcode::Add, ArmOperand::Register(r), ArmOperand::Register(base)) => if exists|v: int|
            is_number(i.op2, v) {
            Some(with_register(core, r, (core.x)(base) + choose|v: int| is_number(i.op2, v)))
        } else {
            None
        },
        (
            ArmOpcode::Ldr,
            ArmOperand::Register(r),
            ArmOperand::PreIndex(base, offset, false),
        ) => Some(with_register(core, r, memory((core.x)(base) + offset))),
        (ArmOpcode::B, ArmOperand::PcOffset(offset), _) => Some(
            ArmCore { pc: core.pc + offset, ..core },
        ),
        (ArmOpcode::Br, ArmOperand::Register(r), _) => Some(
            ArmCore { pc: (core.x)(r), ..core },
        ),
        _ => None,
    }
}

/// Where a core is after the three instructions that stand one behind the other.
pub open spec fn arm_ran_three(
    bytes: Seq<u8>,
    core: ArmCore,
    memory: spec_fn(int) -> int,
) -> Option<int> {
    match (arm_at(bytes, 0), arm_at(bytes, 4), arm_at(bytes, 8)) {
        (Some(a), Some(b), Some(c)) => match arm_ran(a, core, memory) {
            None => None,
            Some(one) => match arm_ran(b, one, memory) {
                None => None,
                Some(two) => match arm_ran(c, two, memory) {
                    None => None,
                    Some(three) => Some(three.pc),
                },
            },
        },
        _ => None,
    }
}

/// A thunk with an import slot goes where the slot leads, and one with a virtual slot calls the function
/// that stands there in the table that the object in `x0` begins with.
pub proof fn law_arm64_thunk_goes_through_its_slot(
    address: u64,
    bytes: Seq<u8>,
    core: ArmCore,
    memory: spec_fn(int) -> int,
)
    requires
        core.pc == address,
    ensures
        arm64_import_slot(address, bytes) matches Some(slot) ==> arm_ran_three(bytes, core, memory)
            == Some(memory(slot as int)),
        arm64_vcall_slot(bytes) matches Some(slot) ==> arm_ran_three(bytes, core, memory) == Some(
            memory(memory((core.x)(0)) + slot),
        ),
{
    assert(address - address % 0x1000 == core.pc - core.pc % 4096);
}

/// Code that jumps goes to its target: at once, or by three instructions.
pub proof fn law_arm64_jump_goes_to_its_target(
    address: u64,
    bytes: Seq<u8>,
    core: ArmCore,
    memory: spec_fn(int) -> int,
)
    requires
        core.pc == address,
        arm64_jump(address, bytes) is Some,
    ensures
        ({
            let target = arm64_jump(address, bytes)->Some_0;
            ||| arm_ran(arm_at(bytes, 0)->Some_0, core, memory) matches Some(end) && end.pc == target
            ||| arm_ran_three(bytes, core, memory) == Some(target as int)
        }),
{
    assert(address - address % 0x1000 == core.pc - core.pc % 4096);
    let first = arm_at(bytes, 0)->Some_0;
    if !(first.opcode == ArmOpcode::B && first.op0 is PcOffset) {
        let second = arm_at(bytes, 4)->Some_0;
        let v = super::arm::immediate_of(second.op2)->Some_0 as int;
        assert(is_number(second.op2, v));
        assert forall|w: int| is_number(second.op2, w) implies w == v by {}
    }
}

/// Whether an instruction loads a register from memory behind another.
pub open spec fn is_load(i: ArmInstruction, target: u16, base: u16, offset: int) -> bool {
    &&& i.opcode == ArmOpcode::Ldr
    &&& i.op0 == ArmOperand::Register(target)
    &&& i.op1 matches ArmOperand::PreIndex(b, o, false) && b == base && o == offset
}

/// Whether an instruction goes on where a register says.
pub open spec fn is_branch(i: ArmInstruction, register: u16) -> bool {
    i.opcode == ArmOpcode::Br && i.op0 == ArmOperand::Register(register)
}

/// A thunk that loads the table of the object in `x0`, loads a function from it and goes there is
/// recognised, and so is one that loads a function from a page and goes there.
pub proof fn law_arm64_thunks_are_recognised(
    address: u64,
    bytes: Seq<u8>,
    page_register: u16,
    page: i64,
    table: u16,
    target: u16,
    slot: int,
)
    requires
        arm_at(bytes, 0) is Some,
        arm_at(bytes, 4) is Some,
        arm_at(bytes, 8) is Some,
        is_branch(arm_at(bytes, 8)->Some_0, target),
        0 <= slot,
    ensures
        is_load(arm_at(bytes, 0)->Some_0, table, 0, 0) && is_load(
            arm_at(bytes, 4)->Some_0,
            target,
            table,
            slot,
        ) ==> arm64_vcall_slot(bytes) == Some(slot as u64),
        arm_at(bytes, 0)->Some_0.opcode == ArmOpcode::Adrp && arm_at(bytes, 0)->Some_0.op0
            == ArmOperand::Register(page_register) && arm_at(bytes, 0)->Some_0.op1
            == ArmOperand::PcOffset(page) && is_load(
            arm_at(bytes, 4)->Some_0,
            target,
            page_register,
            slot,
        ) && 0 <= address - address % 4096 + page <= u64::MAX && address - address % 4096 + page
            + slot <= u64::MAX ==> arm64_import_slot(address, bytes) == Some(
            (address - address % 4096 + page + slot) as u64,
        ),
{
}

/// The bytes from an address on are those of the first section that holds it.
pub proof fn law_bytes_are_those_of_their_section(
    sections: Seq<(u64, Option<Seq<u8>>)>,
    address: u64,
    i: int,
)
    requires
        0 <= i,
        bytes_from(sections, address, i) is Some,
    ensures
        exists|k: int|
            i <= k < sections.len() && #[trigger] sections[k].0 <= address && (
            sections[k].1 matches Some(data) && address - sections[k].0 < data.len()
                && bytes_from(sections, address, i)->Some_0 == data.subrange(
                address - sections[k].0,
                data.len() as int,
            )),
    decreases sections.len() - i,
{
    if !(sections[i].1 matches Some(data) && address >= sections[i].0 && address - sections[i].0
        < data.len()) {
        law_bytes_are_those_of_their_section(sections, address, i + 1);
    } else {
        assert(sections[i].0 <= address);
    }
}

/// Whether a jump leads from one address to another.
pub open spec fn is_jump(image: ImageView, from: u64, to: u64) -> bool {
    bytes_at(image, from) matches Some(bytes) && jump_at(image, from, bytes) == Some(to)
}

/// Jumps are followed one by one, up to 8 of them: an address with code that does not jump stands for
/// itself, and one with code that jumps elsewhere for what its target stands for.
pub proof fn law_jumps_are_followed(image: ImageView, address: u64, target: u64, left: int)
    requires
        0 < left,
        bytes_at(image, address) is Some,
    ensures
        jump_at(image, address, bytes_at(image, address)->Some_0) is None ==> followed(
            image,
            address,
            left,
        ) == Some(address),
        is_jump(image, address, target) && target != address ==> followed(image, address, left)
            == followed(image, target, left - 1),
        is_jump(image, address, address) ==> followed(image, address, left) is None,
{
}

/// What a thunk stands for: the symbol of its import slot where that has one, and else its virtual slot.
pub proof fn law_symbols_come_before_slots(
    image: ImageView,
    slots: Seq<(u64, Seq<char>)>,
    start: u64,
    address: u64,
)
    requires
        followed(image, start, 8) == Some(address),
        bytes_at(image, address) is Some,
        image.arch == ImageArch::X86_64 || image.arch == ImageArch::Aarch64,
    ensures
        ({
            let bytes = bytes_at(image, address)->Some_0;
            let import = if image.arch == ImageArch::X86_64 {
                x64_import_slot(address, bytes)
            } else {
                arm64_import_slot(address, bytes)
            };
            let slot = if image.arch == ImageArch::X86_64 {
                x64_vcall_slot(address, bytes)
            } else {
                arm64_vcall_slot(bytes)
            };
            let symbol = match import {
                Some(at) => slot_symbol(slots, at),
                None => None,
            };
            &&& symbol matches Some(name) ==> member_target(image, slots, start) == Some(
                TargetView::Symbol(name),
            )
            &&& symbol is None && slot is Some ==> member_target(image, slots, start) == Some(
                TargetView::VirtualSlot(slot->Some_0),
            )
            &&& symbol is None && slot is None ==> member_target(image, slots, start) is None
        }),
{
}

/// The symbol of a slot is that of the last entry with its address.
pub proof fn law_last_entry_of_a_slot_counts(slots: Seq<(u64, Seq<char>)>, address: u64)
    ensures
        slot_symbol(slots, address) matches Some(name) ==> exists|i: int|
            0 <= i < slots.len() && #[trigger] slots[i] == (address, name) && forall|k: int|
                i < k < slots.len() ==> (#[trigger] slots[k]).0 != address,
        slot_symbol(slots, address) is None ==> forall|i: int|
            0 <= i < slots.len() ==> (#[trigger] slots[i]).0 != address,
    decreases slots.len(),
{
    if slots.len() > 0 {
        let rest = slots.drop_last();
        let n = slots.len() - 1;
        if slots.last().0 == address {
            assert(slots[n] == (address, slots.last().1));
        } else {
            law_last_entry_of_a_slot_counts(rest, address);
            if slot_symbol(slots, address) is Some {
                let name = slot_symbol(slots, address)->Some_0;
                let i = choose|i: int|
                    0 <= i < rest.len() && #[trigger] rest[i] == (address, name) && forall|k: int|
                        i < k < rest.len() ==> (#[trigger] rest[k]).0 != address;
                assert(slots[i] == (address, name));
                assert forall|k: int| i < k < slots.len() implies (#[trigger] slots[k]).0
                    != address by {
                    if k < n {
                        assert(rest[k].0 != address);
                    }
                }
            } else {
                assert forall|i: int| 0 <= i < slots.len() implies (#[trigger] slots[i]).0
                    != address by {
                    if i < n {
                        assert(rest[i].0 != address);
                    }
                }
            }
        }
    }
}

/// The slots of a table are 8 bytes each, from its address on; those of imports by name hold them.
pub proof fn law_named_imports_have_slots(
    thunks: Seq<Option<Seq<u8>>>,
    base: u64,
    table: u32,
    n: int,
    i: int,
    name: Seq<u8>,
)
    requires
        0 <= i < n <= thunks.len(),
        thunks[i] == Some(name),
        table_slots(thunks, base, table, n) is Ok,
    ensures
        base + table + 8 * i <= u64::MAX,
        table_slots(thunks, base, table, n)->Ok_0.contains(
            ((base + table + 8 * i) as u64, shown_text(name)),
        ),
    decreases n,
{
    let all = table_slots(thunks, base, table, n)->Ok_0;
    let before = table_slots(thunks, base, table, n - 1)->Ok_0;
    let slot = ((base + table + 8 * i) as u64, shown_text(name));
    if i == n - 1 {
        assert(all[before.len() as int] == slot);
    } else {
        law_named_imports_have_slots(thunks, base, table, n - 1, i, name);
        let k = choose|k: int| 0 <= k < before.len() && before[k] == slot;
        assert(all[k] == slot);
    }
}

/// Every descriptor gives the slots of its own address table. Their names come from its lookup table,
/// and from the address table itself where it has no other.
pub proof fn law_descriptors_give_their_slots(
    data: Seq<u8>,
    base: u64,
    descriptors: Seq<(u32, u32)>,
    n: int,
    d: int,
    i: int,
    name: Seq<u8>,
)
    requires
        0 <= d < n <= descriptors.len(),
        descriptor_slots(data, base, descriptors, n) is Ok,
        ({
            let names = if descriptors[d].0 == 0 {
                descriptors[d].1
            } else {
                descriptors[d].0
            };
            0 <= i < import_thunks(data, names)->Some_0.len() && import_thunks(
                data,
                names,
            )->Some_0[i] == Some(name)
        }),
    ensures
        base + descriptors[d].1 + 8 * i <= u64::MAX,
        descriptor_slots(data, base, descriptors, n)->Ok_0.contains(
            ((base + descriptors[d].1 + 8 * i) as u64, shown_text(name)),
        ),
    decreases n,
{
    let all = descriptor_slots(data, base, descriptors, n)->Ok_0;
    let before = descriptor_slots(data, base, descriptors, n - 1)->Ok_0;
    let slot = ((base + descriptors[d].1 + 8 * i) as u64, shown_text(name));
    if d == n - 1 {
        let (lookup, table) = descriptors[d];
        let names = if lookup == 0 {
            table
        } else {
            lookup
        };
        let thunks = import_thunks(data, names)->Some_0;
        let slots = table_slots(thunks, base, table, thunks.len() as int)->Ok_0;
        law_named_imports_have_slots(thunks, base, table, thunks.len() as int, i, name);
        let k = choose|k: int| 0 <= k < slots.len() && slots[k] == slot;
        assert(all[before.len() + k] == slot);
    } else {
        law_descriptors_give_their_slots(data, base, descriptors, n - 1, d, i, name);
        let k = choose|k: int| 0 <= k < before.len() && before[k] == slot;
        assert(all[k] == slot);
    }
}

} // verus!
