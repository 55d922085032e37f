use symgen::util::arm64::{
    add_x16_pageoff, adrp_x16, b, br_x16, bti_c, cbz_x16, displacement, ldar_x16_x16, nop,
    scaled_signed, Arm64Error,
};

use yaxpeax_arch::{Arch, Decoder, U8Reader};
use yaxpeax_arm::armv8::a64::{ARMv8, Instruction, Opcode, Operand};


fn decode(instruction: u32) -> Instruction {
    let bytes = instruction.to_le_bytes();
    <ARMv8 as Arch>::Decoder::default().decode(&mut U8Reader::new(&bytes)).unwrap()
}

fn pc_offset(instruction: u32, opcode: Opcode) -> i64 {
    let instruction = decode(instruction);
    assert_eq!(instruction.opcode, opcode);
    instruction
        .operands
        .iter()
        .find_map(|operand| match operand {
            Operand::PCOffset(offset) => Some(*offset),
            _ => None,
        })
        .unwrap()
}

#[test]
fn known_encodings() {
    assert_eq!(b(0x1000, 0x1004).unwrap(), 0x1400_0001);
    assert_eq!(b(0x1004, 0x1000).unwrap(), 0x17ff_ffff);
    assert_eq!(adrp_x16(0x1234, 0x5008).unwrap(), 0x9000_0030);
    assert_eq!(add_x16_pageoff(0x5abc), 0x912a_f210);
    assert_eq!(cbz_x16(0x1000, 0x1008).unwrap(), 0xb400_0050);
    assert_eq!(ldar_x16_x16(), 0xc8df_fe10);
    assert_eq!(br_x16(), 0xd61f_0200);
    assert_eq!(bti_c(), 0xd503_245f);
    assert_eq!(nop(), 0xd503_201f);
}

#[test]
fn branch_range_is_checked() {
    assert!(b(0, 128 * 1024 * 1024 - 4).is_ok());
    assert!(b(0, 128 * 1024 * 1024).is_err());
    assert!(b(128 * 1024 * 1024, 0).is_ok());
    assert!(b(128 * 1024 * 1024 + 4, 0).is_err());
    assert!(b(0, 2).is_err());

    assert!(cbz_x16(0, 1024 * 1024 - 4).is_ok());
    assert!(cbz_x16(0, 1024 * 1024).is_err());
    assert!(cbz_x16(1024 * 1024, 0).is_ok());
    assert!(cbz_x16(1024 * 1024 + 4, 0).is_err());

    assert!(adrp_x16(0, 4 * 1024 * 1024 * 1024 - 0x1000).is_ok());
    assert!(adrp_x16(0, 4 * 1024 * 1024 * 1024).is_err());
    assert!(adrp_x16(4 * 1024 * 1024 * 1024, 0).is_ok());
    assert!(adrp_x16(4 * 1024 * 1024 * 1024 + 0x1000, 0).is_err());
}

#[test]
fn gateway_encodings_decode_to_the_requested_addresses() {
    let target = 0x1000_4000u64;
    let gateway = 0x1020_0000u64;
    let stub = gateway + 20;
    let slot = 0x1020_4128;

    let adrp = adrp_x16(gateway, slot).unwrap();
    let add = decode(add_x16_pageoff(slot));
    let pageoff = add.operands.iter().find_map(|operand| match operand {
        Operand::Immediate(value) => Some(u64::from(*value)),
        Operand::ImmShift(value, shift) => Some(u64::from(*value) << shift),
        _ => None,
    });
    assert_eq!(
        (gateway & !0xfff).checked_add_signed(pc_offset(adrp, Opcode::ADRP)).unwrap()
            + pageoff.unwrap(),
        slot
    );
    assert_eq!(
        (gateway + 12)
            .checked_add_signed(pc_offset(cbz_x16(gateway + 12, stub).unwrap(), Opcode::CBZ))
            .unwrap(),
        stub
    );
    assert_eq!(
        target.checked_add_signed(pc_offset(b(target, gateway).unwrap(), Opcode::B)).unwrap(),
        gateway
    );
    assert_eq!(
        (stub + 4)
            .checked_add_signed(pc_offset(b(stub + 4, target + 4).unwrap(), Opcode::B))
            .unwrap(),
        target + 4
    );

    let dispatch = |published: u64| if published == 0 { stub } else { published };
    assert_eq!(dispatch(0), stub);
    assert_eq!(dispatch(0x1234_5678), 0x1234_5678);
}

#[test]
fn displacements_are_checked() {
    assert_eq!(b(0, 2), Err(Arm64Error::Misaligned));
    assert_eq!(b(0, 0x0800_0000), Err(Arm64Error::OutOfRange));
    assert_eq!(b(0x0800_0000, 0), Ok(0x1600_0000));
    assert_eq!(cbz_x16(0, 0x10_0000), Err(Arm64Error::OutOfRange));
    assert_eq!(adrp_x16(0, 1 << 32), Err(Arm64Error::OutOfRange));
    assert_eq!(pc_offset(b(0x1000, 0x2000).unwrap(), Opcode::B), 0x1000);
}

#[test]
fn displacements_are_scaled_to_a_signed_field() {
    assert_eq!(displacement(0x1000, 0x0ff0), Ok(-16));
    assert_eq!(displacement(0, u64::MAX), Err(Arm64Error::OutOfRange));
    assert_eq!(displacement(1 << 63, 0), Ok(i64::MIN));
    assert_eq!(scaled_signed(-16, 4, 26), Ok(-4));
    assert_eq!(scaled_signed(6, 4, 26), Err(Arm64Error::Misaligned));
    assert_eq!(scaled_signed(4 * ((1 << 18) - 1), 4, 19), Ok((1 << 18) - 1));
    assert_eq!(scaled_signed(4 << 18, 4, 19), Err(Arm64Error::OutOfRange));
    assert_eq!(scaled_signed(-(4 << 18), 4, 19), Ok(-(1 << 18)));
    assert_eq!(scaled_signed(i64::MIN, 1, 32), Err(Arm64Error::OutOfRange));
    assert_eq!(scaled_signed(-1, 1, 1), Ok(-1));
}
