//! What a core does that runs a prepared image.

use vstd::prelude::*;
use crate::bytes::{group_field_len, le32, lemma_u32_at_le, u32_at};
use crate::util::arm64::{
    add_code, adrp_code, b_code, cbz_code, law_adrp_add_reach_the_address,
    law_branch_reaches_its_target, law_cbz_reaches_its_target, sign_extended,
};
use crate::util::macho::image::ImageModel;
use super::arena::{law_scanned_sites_are_installed, scanned, ArenasView};
use super::disjoint::ranges_apart;
use super::rescan::{capacity_of, is_recorded_at, law_scanned_sites_are_recorded};
use super::site::{lemma_record_len, placement_of, record_of, word_bytes, PlacementView};
use super::PrepatchError;

verus! {

/// The state of a core: the address of its next instruction, and what its register `x16` holds.
pub struct Core {
    pub pc: int,
    pub x16: int,
}

/// What an instruction does, as far as it is one of the few that gateways are made of. A load finds
/// its value in `memory`.
pub open spec fn stepped(core: Core, word: u32, memory: Map<int, u64>) -> Option<Core> {
    if word / 0x400_0000 == 5 {
        // b
        Some(
            Core {
                pc: core.pc + 4 * sign_extended((word % 0x400_0000) as int, 0x200_0000),
                x16: core.x16,
            },
        )
    } else if word / 0x8000_0000 == 1 && word / 0x100_0000 % 32 == 16 && word % 32 == 16 {
        // adrp x16
        let pages = sign_extended(
            4 * (word / 32 % 0x8_0000) + word / 0x2000_0000 % 4,
            0x10_0000,
        );
        Some(Core { pc: core.pc + 4, x16: core.pc - core.pc % 0x1000 + 0x1000 * pages })
    } else if word / 0x40_0000 == 0x244 && word % 1024 == 0x210 {
        // add x16, x16
        Some(Core { pc: core.pc + 4, x16: core.x16 + word / 0x400 % 0x1000 })
    } else if word == 0xc8df_fe10 {
        // ldar x16, [x16]
        if memory.dom().contains(core.x16) {
            Some(Core { pc: core.pc + 4, x16: memory[core.x16] as int })
        } else {
            None
        }
    } else if word / 0x100_0000 == 0xb4 && word % 32 == 16 {
        // cbz x16
        if core.x16 == 0 {
            Some(
                Core {
                    pc: core.pc + 4 * sign_extended((word / 32 % 0x8_0000) as int, 0x4_0000),
                    x16: core.x16,
                },
            )
        } else {
            Some(Core { pc: core.pc + 4, x16: core.x16 })
        }
    } else if word == 0xd61f_0200 {
        // br x16
        Some(Core { pc: core.x16, x16: core.x16 })
    } else if word == 0xd503_245f {
        // bti c
        Some(Core { pc: core.pc + 4, x16: core.x16 })
    } else {
        None
    }
}

/// Code in memory: what stands at the entry of a function, and the record of its hook site.
pub struct Code {
    pub entry_at: int,
    pub entry: Seq<u8>,
    pub record_at: int,
    pub record: Seq<u8>,
}

/// The instruction at an address.
pub open spec fn fetched(code: Code, pc: int) -> Option<u32> {
    if code.entry_at <= pc && pc + 4 <= code.entry_at + code.entry.len() {
        Some(u32_at(code.entry, pc - code.entry_at))
    } else if code.record_at <= pc && pc + 4 <= code.record_at + code.record.len() {
        Some(u32_at(code.record, pc - code.record_at))
    } else {
        None
    }
}

/// The state of a core after `n` instructions.
pub open spec fn ran(core: Core, code: Code, memory: Map<int, u64>, n: nat) -> Option<Core>
    decreases n,
{
    if n == 0 {
        Some(core)
    } else {
        match fetched(code, core.pc) {
            None => None,
            Some(word) => match stepped(core, word, memory) {
                None => None,
                Some(next) => ran(next, code, memory, (n - 1) as nat),
            },
        }
    }
}

/// Whether a call of a hooked function does what it is hooked for. Where the slot holds the address
/// of a hook, the call comes to the hook. Where the slot holds zero, it comes to the instruction
/// behind the function's first.
pub open spec fn calls_hook_or_original(code: Code, target: u64, slot: u64) -> bool {
    forall|core: Core, memory: Map<int, u64>|
        core.pc == target && memory.dom().contains(slot as int) ==> if memory[slot as int] == 0 {
            #[trigger] ran(core, code, memory, 7) matches Some(end) && end.pc == target + 4
        } else {
            ran(core, code, memory, 6) matches Some(end) && end.pc == memory[slot as int]
        }
}

proof fn lemma_word_at(words: Seq<u32>, i: int)
    requires
        0 <= i < words.len(),
    ensures
        word_bytes(words).len() == 4 * words.len(),
        word_bytes(words).subrange(4 * i, 4 * i + 4) == le32(words[i]),
    decreases words.len(),
{
    broadcast use group_field_len;

    let before = words.drop_last();
    if before.len() > 0 {
        lemma_word_at(before, 0);
    }
    assert(word_bytes(before).len() == 4 * before.len());
    if i < before.len() {
        lemma_word_at(before, i);
        assert(word_bytes(words).subrange(4 * i, 4 * i + 4) =~= word_bytes(before).subrange(
            4 * i,
            4 * i + 4,
        ));
    } else {
        assert(word_bytes(words).subrange(4 * i, 4 * i + 4) =~= le32(words[i]));
    }
}

/// A record holds the instructions of the gateway, and they stand where the gateway is said to be.
pub proof fn law_record_holds_its_gateway(target: u64, record: u64, slot: u64, i: int)
    requires
        placement_of(target, record, slot) is Ok,
        0 <= i < 7,
    ensures
        ({
            let p = placement_of(target, record, slot)->Ok_0;
            let bytes = record_of(target, p)->Ok_0;
            &&& record_of(target, p) is Ok
            &&& bytes.len() == 44
            &&& p.record == record
            &&& p.slot == slot
            &&& p.gateway == record + 12
            &&& p.stub == p.gateway + 20
            &&& p.instructions.len() == 7
            &&& u32_at(bytes, p.gateway - p.record + 4 * i) == p.instructions[i]
        }),
{
    broadcast use group_field_len;

    let p = placement_of(target, record, slot)->Ok_0;
    let bytes = record_of(target, p)->Ok_0;
    lemma_record_len(target, p);
    lemma_word_at(p.instructions, i);
    let words = word_bytes(p.instructions);
    assert(bytes.subrange(12, 40) =~= words);
    assert(bytes.subrange(12 + 4 * i, 16 + 4 * i) =~= words.subrange(4 * i, 4 * i + 4));
    lemma_u32_at_le(bytes, 12 + 4 * i, p.instructions[i]);
}

proof fn lemma_b_steps(from: u64, to: u64)
    requires
        b_code(from, to) is Ok,
    ensures
        forall|x: int, m: Map<int, u64>| #[trigger]
            stepped(Core { pc: from as int, x16: x }, b_code(from, to)->Ok_0, m) == Some(
                Core { pc: to as int, x16: x },
            ),
{
    law_branch_reaches_its_target(from, to);
    assert(b_code(from, to)->Ok_0 / 0x400_0000 == 5);
}

proof fn lemma_cbz_steps(from: u64, to: u64)
    requires
        cbz_code(from, to) is Ok,
    ensures
        forall|x: int, m: Map<int, u64>| #[trigger]
            stepped(Core { pc: from as int, x16: x }, cbz_code(from, to)->Ok_0, m) == Some(
                Core {
                    pc: if x == 0 {
                        to as int
                    } else {
                        from + 4
                    },
                    x16: x,
                },
            ),
{
    law_cbz_reaches_its_target(from, to);
    let word = cbz_code(from, to)->Ok_0;
    assert(word / 0x100_0000 == 0xb4 && word % 32 == 16);
    assert(word / 0x400_0000 != 5);
    assert(word / 0x100_0000 % 32 != 16);
    assert(word / 0x40_0000 != 0x244);
}

proof fn lemma_adrp_add_step(from: u64, to: u64)
    requires
        adrp_code(from, to) is Ok,
    ensures
        forall|x: int, m: Map<int, u64>|
            (#[trigger] stepped(Core { pc: from as int, x16: x }, adrp_code(from, to)->Ok_0, m))
                matches Some(c) && c.pc == from + 4 && stepped(c, add_code(to), m) == Some(
                Core { pc: from + 8, x16: to as int },
            ),
{
    law_adrp_add_reach_the_address(from, to);
    let (page, offset) = (adrp_code(from, to)->Ok_0, add_code(to));
    assert(page / 0x8000_0000 == 1 && page / 0x100_0000 % 32 == 16 && page % 32 == 16);
    assert(page / 0x400_0000 != 5);
    assert(offset / 0x40_0000 == 0x244 && offset % 1024 == 0x210);
    assert(offset / 0x400_0000 != 5);
    assert(offset / 0x100_0000 % 32 == 17);
}

/// What the instructions of a gateway do, each at its place.
proof fn lemma_gateway_words(target: u64, record: u64, slot: u64)
    requires
        placement_of(target, record, slot) is Ok,
    ensures
        ({
            let p = placement_of(target, record, slot)->Ok_0;
            let w = p.instructions;
            let g = p.gateway as int;
            let entry = b_code(target, p.gateway)->Ok_0;
            &&& forall|x: int, m: Map<int, u64>| #[trigger]
                stepped(Core { pc: target as int, x16: x }, entry, m) == Some(
                    Core { pc: g, x16: x },
                )
            &&& forall|x: int, m: Map<int, u64>|
                (#[trigger] stepped(Core { pc: g, x16: x }, w[0], m)) matches Some(c) && c.pc == g
                    + 4 && stepped(c, w[1], m) == Some(Core { pc: g + 8, x16: slot as int })
            &&& w[2] == 0xc8df_fe10
            &&& forall|x: int, m: Map<int, u64>| #[trigger]
                stepped(Core { pc: g + 12, x16: x }, w[3], m) == Some(
                    Core {
                        pc: if x == 0 {
                            g + 20
                        } else {
                            g + 16
                        },
                        x16: x,
                    },
                )
            &&& w[4] == 0xd61f_0200
            &&& w[5] == 0xd503_245f
            &&& forall|x: int, m: Map<int, u64>| #[trigger]
                stepped(Core { pc: g + 24, x16: x }, w[6], m) == Some(
                    Core { pc: target + 4, x16: x },
                )
        }),
{
    let p = placement_of(target, record, slot)->Ok_0;
    let g = p.gateway;
    lemma_b_steps(target, g);
    lemma_adrp_add_step(g, slot);
    lemma_cbz_steps((g + 12) as u64, (g + 20) as u64);
    lemma_b_steps((g + 24) as u64, (target + 4) as u64);
}

proof fn lemma_gateway_runs(
    target: u64,
    record: u64,
    slot: u64,
    code: Code,
    core: Core,
    memory: Map<int, u64>,
)
    requires
        placement_of(target, record, slot) is Ok,
        ({
            let p = placement_of(target, record, slot)->Ok_0;
            &&& code.entry_at == target
            &&& code.entry == le32(b_code(target, p.gateway)->Ok_0)
            &&& code.record_at == record
            &&& record_of(target, p) == Ok::<Seq<u8>, PrepatchError>(code.record)
        }),
        ranges_apart(target as int, 4, record as int, 44),
        core.pc == target,
        memory.dom().contains(slot as int),
    ensures
        if memory[slot as int] == 0 {
            ran(core, code, memory, 7) matches Some(end) && end.pc == target + 4
        } else {
            ran(core, code, memory, 6) matches Some(end) && end.pc == memory[slot as int]
        },
{
    broadcast use group_field_len;

    let p = placement_of(target, record, slot)->Ok_0;
    let w = p.instructions;
    let g = p.gateway as int;
    let v = memory[slot as int] as int;
    let entry = b_code(target, p.gateway)->Ok_0;
    lemma_gateway_words(target, record, slot);
    law_record_holds_its_gateway(target, record, slot, 0);
    law_record_holds_its_gateway(target, record, slot, 1);
    law_record_holds_its_gateway(target, record, slot, 2);
    law_record_holds_its_gateway(target, record, slot, 3);
    law_record_holds_its_gateway(target, record, slot, 4);
    law_record_holds_its_gateway(target, record, slot, 5);
    law_record_holds_its_gateway(target, record, slot, 6);
    assert(code.entry.subrange(0, 4) =~= code.entry);
    lemma_u32_at_le(code.entry, 0, entry);
    assert(fetched(code, target as int) == Some(entry));
    assert(fetched(code, g) == Some(w[0]));
    assert(fetched(code, g + 4) == Some(w[1]));
    assert(fetched(code, g + 8) == Some(w[2]));
    assert(fetched(code, g + 12) == Some(w[3]));
    assert(fetched(code, g + 16) == Some(w[4]));
    assert(fetched(code, g + 20) == Some(w[5]));
    assert(fetched(code, g + 24) == Some(w[6]));
    let c0 = Core { pc: target as int, x16: core.x16 };
    assert(core == c0);
    let c1 = Core { pc: g, x16: core.x16 };
    assert(stepped(c0, entry, memory) == Some(c1));
    let c2 = stepped(c1, w[0], memory)->Some_0;
    let c3 = Core { pc: g + 8, x16: slot as int };
    let c4 = Core { pc: g + 12, x16: v };
    assert(stepped(c3, w[2], memory) == Some(c4));
    let c5 = stepped(c4, w[3], memory)->Some_0;
    reveal_with_fuel(ran, 8);
    if v == 0 {
        assert(c5 == Core { pc: g + 20, x16: 0 });
        let c6 = Core { pc: g + 24, x16: 0 };
        assert(stepped(c5, w[5], memory) == Some(c6));
        let c7 = Core { pc: target + 4, x16: 0 };
        assert(stepped(c6, w[6], memory) == Some(c7));
    } else {
        assert(c5 == Core { pc: g + 16, x16: v });
        assert(stepped(c5, w[4], memory) == Some(Core { pc: v, x16: v }));
    }
}

/// A call of a function whose first instruction is a branch to its gateway comes to the hook where one
/// is published, and else runs on behind that first instruction.
///
/// A target inside its own record is left out: there the branch and the gateway are the same bytes.
pub proof fn law_gateway_calls_the_hook_or_the_original(target: u64, record: u64, slot: u64)
    requires
        placement_of(target, record, slot) is Ok,
        ranges_apart(target as int, 4, record as int, 44),
    ensures
        ({
            let p = placement_of(target, record, slot)->Ok_0;
            &&& b_code(target, p.gateway) is Ok
            &&& record_of(target, p) is Ok
            &&& calls_hook_or_original(
                Code {
                    entry_at: target as int,
                    entry: le32(b_code(target, p.gateway)->Ok_0),
                    record_at: record as int,
                    record: record_of(target, p)->Ok_0,
                },
                target,
                slot,
            )
        }),
{
    let p = placement_of(target, record, slot)->Ok_0;
    law_record_holds_its_gateway(target, record, slot, 0);
    let code = Code {
        entry_at: target as int,
        entry: le32(b_code(target, p.gateway)->Ok_0),
        record_at: record as int,
        record: record_of(target, p)->Ok_0,
    };
    assert forall|core: Core, memory: Map<int, u64>|
        core.pc == target && memory.dom().contains(slot as int) implies if memory[slot as int]
        == 0 {
        #[trigger] ran(core, code, memory, 7) matches Some(end) && end.pc == target + 4
    } else {
        ran(core, code, memory, 6) matches Some(end) && end.pc == memory[slot as int]
    } by {
        lemma_gateway_runs(target, record, slot, code, core, memory);
    }
}

/// In an image whose arenas are valid, a call of a hooked function comes to the hook where one is
/// published, and else runs on behind the function's first instruction. What is run are the bytes of
/// the image.
///
/// A target inside its own record is left out: there the branch and the gateway are the same bytes.
pub proof fn law_hooked_function_calls_the_hook_or_the_original(
    image: ImageModel,
    found: ArenasView,
    site: (u64, PlacementView),
)
    requires
        scanned(image) == Ok::<ArenasView, PrepatchError>(found),
        found.sites.contains(site),
        ranges_apart(site.0 as int, 4, site.1.record as int, 44),
    ensures
        image.bytes(site.0, 4) matches Ok(entry) && (image.bytes(site.1.record, 44) matches Ok(
            record,
        ) && calls_hook_or_original(
            Code {
                entry_at: site.0 as int,
                entry,
                record_at: site.1.record as int,
                record,
            },
            site.0,
            site.1.slot,
        )),
{
    law_scanned_sites_are_installed(image);
    law_scanned_sites_are_recorded(image, site);
    let x = choose|x: int| 0 <= x < found.sites.len() && found.sites[x] == site;
    assert(found.sites[x] == site);
    let (k, index) = choose|k: int, index: int|
        0 <= k < found.arenas.len() && 0 <= index < capacity_of(image, found.arenas[k]) && #[trigger] is_recorded_at(image, found.arenas[k], index, site);
    law_gateway_calls_the_hook_or_the_original(site.0, site.1.record, site.1.slot);
}

} // verus!
