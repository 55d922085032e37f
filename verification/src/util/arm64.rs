//! AArch64 gateway instruction assembly.

use aarchmrs_instructions::A64::control::branch_imm::B_only_branch_imm::B_only_branch_imm;
use aarchmrs_instructions::A64::control::branch_reg::BR_64_branch_reg::BR_64_branch_reg;
use aarchmrs_instructions::A64::control::compbranch::CBZ_64_compbranch::CBZ_64_compbranch;
use aarchmrs_instructions::A64::control::hints::BTI_HB_hints::BTI_HB_hints;
use aarchmrs_instructions::A64::control::hints::NOP_HI_hints::NOP_HI_hints;
use aarchmrs_instructions::A64::dpimm::addsub_imm::ADD_64_addsub_imm::ADD_64_addsub_imm;
use aarchmrs_instructions::A64::dpimm::pcreladdr::ADRP_only_pcreladdr::ADRP_only_pcreladdr;
use aarchmrs_instructions::A64::ldst::ldstord::LDAR_LR64_ldstord::LDAR_LR64_ldstord;
use aarchmrs_types::BitValue;
use vstd::arithmetic::div_mod::{lemma_fundamental_div_mod, lemma_fundamental_div_mod_converse};
use vstd::arithmetic::power2::{lemma2_to64, lemma_pow2_pos, lemma_pow2_strictly_increases, pow2};
use vstd::bits::lemma_u64_shl_is_mul;
use vstd::prelude::*;

verus! {

/// Why a target cannot be encoded.
#[derive(Clone, Copy, Debug, PartialEq, Eq, Structural)]
pub enum Arm64Error {
    Misaligned,
    OutOfRange,
}

/// `B_only_branch_imm`: the branch opcode with the low 26 bits of the word offset.
#[verifier::external_body]
fn encode_b(imm26: i32) -> (r: u32)
    requires
        -0x200_0000 <= imm26 < 0x200_0000,
    ensures
        r == 0x1400_0000 + imm26 as int % 0x400_0000,
{
    B_only_branch_imm(BitValue::new_i32(imm26)).unpack()
}

/// `CBZ_64_compbranch`: the compare-and-branch opcode with the low 19 bits of the word offset and
/// the register.
#[verifier::external_body]
fn encode_cbz(imm19: i32, rt: u32) -> (r: u32)
    requires
        -0x4_0000 <= imm19 < 0x4_0000,
        rt < 32,
    ensures
        r == 0xb400_0000 + 32 * (imm19 as int % 0x8_0000) + rt,
{
    CBZ_64_compbranch(BitValue::new_i32(imm19), BitValue::new_u32(rt)).unpack()
}

/// `ADRP_only_pcreladdr`: the opcode with the two parts of the page offset and the register.
#[verifier::external_body]
fn encode_adrp(immlo: u32, immhi: u32, rd: u32) -> (r: u32)
    requires
        immlo < 4,
        immhi < 0x8_0000,
        rd < 32,
    ensures
        r == 0x9000_0000 + 0x2000_0000 * immlo + 32 * immhi + rd,
{
    ADRP_only_pcreladdr(BitValue::new_u32(immlo), BitValue::new_u32(immhi), BitValue::new_u32(rd)).unpack()
}

/// `ADD_64_addsub_imm`: the opcode with the shift bit, the immediate and the two registers.
#[verifier::external_body]
fn encode_add(sh: u32, imm12: u32, rn: u32, rd: u32) -> (r: u32)
    requires
        sh < 2,
        imm12 < 0x1000,
        rn < 32,
        rd < 32,
    ensures
        r == 0x9100_0000 + 0x40_0000 * sh + 0x400 * imm12 + 32 * rn + rd,
{
    ADD_64_addsub_imm(
        BitValue::new_u32(sh),
        BitValue::new_u32(imm12),
        BitValue::new_u32(rn),
        BitValue::new_u32(rd),
    ).unpack()
}

/// `LDAR_LR64_ldstord`: the load-acquire opcode with the two registers.
#[verifier::external_body]
fn encode_ldar(rn: u32, rt: u32) -> (r: u32)
    requires
        rn < 32,
        rt < 32,
    ensures
        r == 0xc8df_fc00 + 32 * rn + rt,
{
    LDAR_LR64_ldstord(BitValue::new_u32(rn), BitValue::new_u32(rt)).unpack()
}

/// `BR_64_branch_reg`: the branch-to-register opcode with the register.
#[verifier::external_body]
fn encode_br(rn: u32) -> (r: u32)
    requires
        rn < 32,
    ensures
        r == 0xd61f_0000 + 32 * rn,
{
    BR_64_branch_reg(BitValue::new_u32(rn)).unpack()
}

/// `BTI_HB_hints`: the branch-target hint with its kind.
#[verifier::external_body]
fn encode_bti(op2: u32) -> (r: u32)
    requires
        op2 < 4,
    ensures
        r == 0xd503_241f + 64 * op2,
{
    BTI_HB_hints(BitValue::new_u32(op2)).unpack()
}

/// `NOP_HI_hints`: the no-operation hint.
#[verifier::external_body]
fn encode_nop() -> (r: u32)
    ensures
        r == 0xd503_201f,
{
    NOP_HI_hints().unpack()
}

/// The distance from `from` to `to`, where it fits 64 bits.
pub open spec fn distance(from: int, to: int) -> Result<int, Arm64Error> {
    if i64::MIN <= to - from <= i64::MAX {
        Ok(to - from)
    } else {
        Err(Arm64Error::OutOfRange)
    }
}

/// A displacement in units of `scale`, where it lies in `-limit..limit`.
pub open spec fn scaled(displacement: int, scale: int, limit: int) -> Result<int, Arm64Error> {
    if displacement % scale != 0 {
        Err(Arm64Error::Misaligned)
    } else if displacement / scale < -limit || displacement / scale >= limit {
        Err(Arm64Error::OutOfRange)
    } else {
        Ok(displacement / scale)
    }
}

/// The distance from `from` to `to` in units of `scale`, where it lies in `-limit..limit`.
pub open spec fn scaled_distance(from: int, to: int, scale: int, limit: int) -> Result<
    int,
    Arm64Error,
> {
    match distance(from, to) {
        Err(e) => Err(e),
        Ok(d) => scaled(d, scale, limit),
    }
}

/// The distance from `from` to `to`.
pub fn displacement(from: u64, to: u64) -> (r: Result<i64, Arm64Error>)
    ensures
        match r {
            Ok(d) => distance(from as int, to as int) == Ok::<int, Arm64Error>(d as int),
            Err(e) => distance(from as int, to as int) == Err::<int, Arm64Error>(e),
        },
{
    let d: i128 = to as i128 - from as i128;
    if d < i64::MIN as i128 || d > i64::MAX as i128 {
        return Err(Arm64Error::OutOfRange);
    }
    Ok(d as i64)
}

/// A displacement in units of `scale`, as a signed field of `bits` bits.
pub fn scaled_signed(displacement: i64, scale: i64, bits: u32) -> (r: Result<i32, Arm64Error>)
    requires
        0 < scale,
        1 <= bits <= 32,
    ensures
        match r {
            Ok(v) => scaled(
                displacement as int,
                scale as int,
                pow2((bits - 1) as nat) as int,
            ) == Ok::<int, Arm64Error>(v as int) && v * scale == displacement,
            Err(e) => scaled(
                displacement as int,
                scale as int,
                pow2((bits - 1) as nat) as int,
            ) == Err::<int, Arm64Error>(e),
        },
{
    let shift: u64 = bits as u64 - 1;
    let limit: u64 = 1u64 << shift;
    proof {
        lemma2_to64();
        lemma_pow2_bounded(shift as nat);
        lemma_u64_shl_is_mul(1, shift);
    }
    let size: u64 = if displacement < 0 {
        (0i128 - displacement as i128) as u64
    } else {
        displacement as u64
    };
    let unit: u64 = scale as u64;
    let count: u64 = size / unit;
    proof {
        lemma_fundamental_div_mod(size as int, unit as int);
        lemma_signed_units(displacement as int, size as int, unit as int);
    }
    if size % unit != 0 {
        return Err(Arm64Error::Misaligned);
    }
    if displacement < 0 {
        if count > limit {
            return Err(Arm64Error::OutOfRange);
        }
        Ok((0i64 - count as i64) as i32)
    } else {
        if count >= limit {
            return Err(Arm64Error::OutOfRange);
        }
        Ok(count as i32)
    }
}

proof fn lemma_pow2_bounded(shift: nat)
    requires
        shift <= 31,
    ensures
        1 <= pow2(shift) <= 0x8000_0000,
{
    lemma2_to64();
    lemma_pow2_pos(shift);
    if shift < 31 {
        lemma_pow2_strictly_increases(shift, 31);
    }
}

/// A number is a multiple of a unit just where its size is one.
proof fn lemma_signed_units(number: int, size: int, unit: int)
    requires
        0 < unit,
        0 <= size,
        number == size || number == -size,
    ensures
        number % unit == 0 <==> size % unit == 0,
        size % unit == 0 ==> (number / unit) * unit == number && number / unit == if number < 0 {
            -(size / unit)
        } else {
            size / unit
        },
{
    let q = size / unit;
    lemma_fundamental_div_mod(size, unit);
    lemma_fundamental_div_mod(number, unit);
    assert(unit * q == q * unit) by (nonlinear_arith);
    if size % unit == 0 && number < 0 {
        assert(number == unit * (-q)) by (nonlinear_arith)
            requires
                number == -size,
                size == unit * q,
        ;
        lemma_fundamental_div_mod_converse(number, unit, -q, 0);
        assert((-q) * unit == unit * (-q)) by (nonlinear_arith);
    }
    if number % unit == 0 && number < 0 {
        let p = number / unit;
        assert(size == unit * (-p)) by (nonlinear_arith)
            requires
                number == -size,
                number == unit * p,
        ;
        lemma_fundamental_div_mod_converse(size, unit, -p, 0);
    }
}

/// The encoding of a branch.
pub open spec fn b_code(from: u64, to: u64) -> Result<u32, Arm64Error> {
    match scaled_distance(from as int, to as int, 4, 0x200_0000) {
        Err(e) => Err(e),
        Ok(v) => Ok((0x1400_0000 + v % 0x400_0000) as u32),
    }
}

/// `b to`, placed at `from`.
pub fn b(from: u64, to: u64) -> (r: Result<u32, Arm64Error>)
    ensures
        r == b_code(from, to),
{
    proof {
        lemma2_to64();
    }
    let imm26: i32 = scaled_signed(displacement(from, to)?, 4, 26)?;
    Ok(encode_b(imm26))
}

/// The start of the page of `address`.
pub open spec fn page_of(address: u64) -> int {
    address - address % 0x1000
}

/// The encoding of the page part of an address.
pub open spec fn adrp_code(from: u64, to: u64) -> Result<u32, Arm64Error> {
    match scaled_distance(page_of(from), page_of(to), 0x1000, 0x10_0000) {
        Err(e) => Err(e),
        Ok(v) => {
            let imm21 = v % 0x20_0000;
            Ok((0x9000_0010 + 0x2000_0000 * (imm21 % 4) + 32 * (imm21 / 4)) as u32)
        },
    }
}

/// `adrp x16, to`, placed at `from`.
pub fn adrp_x16(from: u64, to: u64) -> (r: Result<u32, Arm64Error>)
    ensures
        r == adrp_code(from, to),
{
    let from_page: u64 = from - from % 0x1000;
    let to_page: u64 = to - to % 0x1000;
    proof {
        lemma2_to64();
    }
    let pages: i32 = scaled_signed(displacement(from_page, to_page)?, 0x1000, 21)?;
    let imm21: u32 = if pages < 0 {
        (pages + 0x20_0000) as u32
    } else {
        pages as u32
    };
    Ok(encode_adrp(imm21 % 4, imm21 / 4, 16))
}

/// The encoding of the offset part of an address.
pub open spec fn add_code(to: u64) -> u32 {
    (0x9100_0210 + 0x400 * (to % 0x1000)) as u32
}

/// `add x16, x16, <page offset of to>`.
pub fn add_x16_pageoff(to: u64) -> (r: u32)
    ensures
        r == add_code(to),
{
    encode_add(0, (to % 0x1000) as u32, 16, 16)
}

/// `ldar x16, [x16]`.
pub fn ldar_x16_x16() -> (r: u32)
    ensures
        r == 0xc8df_fe10,
{
    encode_ldar(16, 16)
}

/// The encoding of a compare-and-branch.
pub open spec fn cbz_code(from: u64, to: u64) -> Result<u32, Arm64Error> {
    match scaled_distance(from as int, to as int, 4, 0x4_0000) {
        Err(e) => Err(e),
        Ok(v) => Ok((0xb400_0010 + 32 * (v % 0x8_0000)) as u32),
    }
}

/// `cbz x16, to`, placed at `from`.
pub fn cbz_x16(from: u64, to: u64) -> (r: Result<u32, Arm64Error>)
    ensures
        r == cbz_code(from, to),
{
    proof {
        lemma2_to64();
    }
    let imm19: i32 = scaled_signed(displacement(from, to)?, 4, 19)?;
    Ok(encode_cbz(imm19, 16))
}

/// `br x16`.
pub fn br_x16() -> (r: u32)
    ensures
        r == 0xd61f_0200,
{
    encode_br(16)
}

/// `bti c`.
pub fn bti_c() -> (r: u32)
    ensures
        r == 0xd503_245f,
{
    encode_bti(1)
}

/// `nop`.
pub fn nop() -> (r: u32)
    ensures
        r == 0xd503_201f,
{
    encode_nop()
}

/// The signed value of a field of which the upper half stands for negative numbers.
pub open spec fn sign_extended(field: int, half: int) -> int {
    if field >= half {
        field - 2 * half
    } else {
        field
    }
}

/// Where a branch at `from` goes.
pub open spec fn b_target(from: u64, code: u32) -> int {
    from + 4 * sign_extended((code % 0x400_0000) as int, 0x200_0000)
}

/// Where a compare-and-branch at `from` goes.
pub open spec fn cbz_target(from: u64, code: u32) -> int {
    from + 4 * sign_extended((code / 32 % 0x8_0000) as int, 0x4_0000)
}

/// The page that an `adrp` at `from` gives.
pub open spec fn adrp_target(from: u64, code: u32) -> int {
    page_of(from) + 0x1000 * sign_extended(
        4 * (code / 32 % 0x8_0000) + code / 0x2000_0000 % 4,
        0x10_0000,
    )
}

/// The immediate of an `add`.
pub open spec fn add_immediate(code: u32) -> int {
    (code / 0x400 % 0x1000) as int
}

/// A branch goes to the address that it was encoded for.
pub proof fn law_branch_reaches_its_target(from: u64, to: u64)
    requires
        b_code(from, to).is_ok(),
    ensures
        b_target(from, b_code(from, to)->Ok_0) == to,
{
}

/// A compare-and-branch goes to the address that it was encoded for.
pub proof fn law_cbz_reaches_its_target(from: u64, to: u64)
    requires
        cbz_code(from, to).is_ok(),
    ensures
        cbz_target(from, cbz_code(from, to)->Ok_0) == to,
{
}

/// `adrp` and `add` together give the address that they were encoded for.
pub proof fn law_adrp_add_reach_the_address(from: u64, to: u64)
    requires
        adrp_code(from, to).is_ok(),
    ensures
        adrp_target(from, adrp_code(from, to)->Ok_0) + add_immediate(add_code(to)) == to,
{
    let v = scaled_distance(page_of(from), page_of(to), 0x1000, 0x10_0000)->Ok_0;
    let imm21 = v % 0x20_0000;
    let code = adrp_code(from, to)->Ok_0;
    assert(0 <= imm21 < 0x20_0000);
    assert(code / 32 % 0x8_0000 == imm21 / 4);
    assert(code / 0x2000_0000 % 4 == imm21 % 4);
}

} // verus!
