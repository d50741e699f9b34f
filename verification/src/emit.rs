//! Emission of RISC-V 64-bit little-endian machine code from machine instructions.
use vstd::prelude::*;
use crate::arena::Block;
use crate::riscv::{MInst, Reg, ZERO, RA, T0};
use crate::select::LoweredFunction;

verus! {

// ---------------------------------------------------------------------------
// Instruction formats

pub open spec fn enc_r(opcode: u32, rd: Reg, funct3: u32, rs1: Reg, rs2: Reg, funct7: u32) -> u32 {
    opcode | ((rd.0 as u32) << 7u32) | (funct3 << 12u32) | ((rs1.0 as u32) << 15u32) | ((rs2.0 as u32) << 20u32) | (funct7 << 25u32)
}

pub open spec fn enc_i(opcode: u32, rd: Reg, funct3: u32, rs1: Reg, imm: i32) -> u32 {
    opcode | ((rd.0 as u32) << 7u32) | (funct3 << 12u32) | ((rs1.0 as u32) << 15u32) | (((imm as u32) & 0xFFFu32) << 20u32)
}

pub open spec fn enc_s(opcode: u32, funct3: u32, rs1: Reg, rs2: Reg, imm: i32) -> u32 {
    opcode | (((imm as u32) & 0x1Fu32) << 7u32) | (funct3 << 12u32) | ((rs1.0 as u32) << 15u32)
        | ((rs2.0 as u32) << 20u32) | ((((imm as u32) >> 5u32) & 0x7Fu32) << 25u32)
}

pub open spec fn enc_u(opcode: u32, rd: Reg, imm: i32) -> u32 {
    opcode | ((rd.0 as u32) << 7u32) | (((imm as u32) & 0xFFFFFu32) << 12u32)
}

pub open spec fn enc_b(opcode: u32, funct3: u32, rs1: Reg, rs2: Reg, imm: i32) -> u32 {
    opcode | (((((imm as u32) >> 11u32) & 1u32) << 7u32) | ((((imm as u32) >> 1u32) & 0xFu32) << 8u32)
        | (funct3 << 12u32) | ((rs1.0 as u32) << 15u32) | ((rs2.0 as u32) << 20u32)
        | ((((imm as u32) >> 5u32) & 0x3Fu32) << 25u32) | ((((imm as u32) >> 12u32) & 1u32) << 31u32))
}

pub open spec fn enc_j(opcode: u32, rd: Reg, imm: i32) -> u32 {
    opcode | ((rd.0 as u32) << 7u32) | ((((imm as u32) >> 12u32) & 0xFFu32) << 12u32)
        | ((((imm as u32) >> 11u32) & 1u32) << 20u32) | ((((imm as u32) >> 1u32) & 0x3FFu32) << 21u32)
        | ((((imm as u32) >> 20u32) & 1u32) << 31u32)
}

fn encode_r(opcode: u32, rd: Reg, funct3: u32, rs1: Reg, rs2: Reg, funct7: u32) -> (w: u32)
    ensures
        w == enc_r(opcode, rd, funct3, rs1, rs2, funct7),
{
    let rd = rd.0 as u32;
    let rs1 = rs1.0 as u32;
    let rs2 = rs2.0 as u32;
    opcode | (rd << 7u32) | (funct3 << 12u32) | (rs1 << 15u32) | (rs2 << 20u32) | (funct7 << 25u32)
}

fn encode_i(opcode: u32, rd: Reg, funct3: u32, rs1: Reg, imm: i32) -> (w: u32)
    ensures
        w == enc_i(opcode, rd, funct3, rs1, imm),
{
    let rd = rd.0 as u32;
    let rs1 = rs1.0 as u32;
    let imm = (imm as u32) & 0xFFFu32;
    opcode | (rd << 7u32) | (funct3 << 12u32) | (rs1 << 15u32) | (imm << 20u32)
}

fn encode_s(opcode: u32, funct3: u32, rs1: Reg, rs2: Reg, imm: i32) -> (w: u32)
    ensures
        w == enc_s(opcode, funct3, rs1, rs2, imm),
{
    let rs1 = rs1.0 as u32;
    let rs2 = rs2.0 as u32;
    let imm = imm as u32;
    let imm_0_4 = (imm & 0x1Fu32) << 7u32;
    let imm_5_11 = ((imm >> 5u32) & 0x7Fu32) << 25u32;
    opcode | imm_0_4 | (funct3 << 12u32) | (rs1 << 15u32) | (rs2 << 20u32) | imm_5_11
}

fn encode_u(opcode: u32, rd: Reg, imm: i32) -> (w: u32)
    ensures
        w == enc_u(opcode, rd, imm),
{
    let rd = rd.0 as u32;
    let imm20 = (imm as u32) & 0xFFFFFu32;
    opcode | (rd << 7u32) | (imm20 << 12u32)
}

fn encode_b(opcode: u32, funct3: u32, rs1: Reg, rs2: Reg, imm: i32) -> (w: u32)
    ensures
        w == enc_b(opcode, funct3, rs1, rs2, imm),
{
    let rs1 = rs1.0 as u32;
    let rs2 = rs2.0 as u32;
    let imm = imm as u32;
    let imm12 = ((imm >> 12u32) & 1u32) << 31u32;
    let imm10_5 = ((imm >> 5u32) & 0x3Fu32) << 25u32;
    let imm4_1 = ((imm >> 1u32) & 0xFu32) << 8u32;
    let imm11 = ((imm >> 11u32) & 1u32) << 7u32;
    opcode | (imm11 | imm4_1 | (funct3 << 12u32) | (rs1 << 15u32) | (rs2 << 20u32) | imm10_5 | imm12)
}

fn encode_j(opcode: u32, rd: Reg, imm: i32) -> (w: u32)
    ensures
        w == enc_j(opcode, rd, imm),
{
    let rd = rd.0 as u32;
    let imm = imm as u32;
    let imm20 = ((imm >> 20u32) & 1u32) << 31u32;
    let imm10_1 = ((imm >> 1u32) & 0x3FFu32) << 21u32;
    let imm11 = ((imm >> 11u32) & 1u32) << 20u32;
    let imm19_12 = ((imm >> 12u32) & 0xFFu32) << 12u32;
    opcode | (rd << 7u32) | imm19_12 | imm11 | imm10_1 | imm20
}

// ---------------------------------------------------------------------------
// Pseudo-instruction expansion

/// The sign-extended low 12 bits of `imm`.
pub open spec fn low12(imm: i64) -> i64 {
    (((imm & 0xFFFi64) ^ 0x800i64) - 0x800i64) as i64
}

/// The value left for the upper instructions once the low 12 bits are split off.
pub open spec fn upper_part(imm: i64) -> i64 {
    ((imm - low12(imm)) as i64) >> 12u64
}

pub open spec fn abs_i64(x: i64) -> int {
    if x < 0 { -(x as int) } else { x as int }
}

pub open spec fn fits_i12(imm: i64) -> bool {
    -2048 <= imm <= 2047
}

pub open spec fn fits_i32(imm: i64) -> bool {
    -2147483648 <= imm <= 2147483647
}

pub proof fn lemma_upper_part(imm: i64)
    requires
        !fits_i32(imm),
    ensures
        abs_i64(upper_part(imm)) < abs_i64(imm),
        -2048 <= low12(imm) <= 2047,
{
    assert(-2048 <= low12(imm) <= 2047) by (bit_vector);
    assert(imm >= 2147483648i64 ==> (((imm - ((((imm & 0xFFFi64) ^ 0x800i64) - 0x800i64) as i64)) as i64) >> 12u64) < imm
        && -imm < (((imm - ((((imm & 0xFFFi64) ^ 0x800i64) - 0x800i64) as i64)) as i64) >> 12u64)) by (bit_vector);
    assert(imm < -2147483648i64 ==> (((imm - ((((imm & 0xFFFi64) ^ 0x800i64) - 0x800i64) as i64)) as i64) >> 12u64) > imm
        && (((imm - ((((imm & 0xFFFi64) ^ 0x800i64) - 0x800i64) as i64)) as i64) >> 12u64) < 0) by (bit_vector);
}

/// The instructions that load `imm` into `rd`: one `addi` for 12-bit values,
/// `lui` and `addiw` for 32-bit values, and otherwise the sequence for the
/// upper part followed by a shift by 12 and an `addi` of the low 12 bits.
/// The upper part is computed in 64-bit two's complement, so every 64-bit
/// integer has a sequence.
pub open spec fn li64_seq(rd: Reg, imm: i64) -> Seq<MInst>
    decreases abs_i64(imm),
{
    if fits_i12(imm) {
        seq![MInst::Addi(rd, Reg(ZERO), imm as i32)]
    } else if fits_i32(imm) {
        let lo = low12(imm);
        let hi = ((imm - lo) as i64) >> 12u64;
        if lo == 0 {
            seq![MInst::Lui(rd, hi as i32)]
        } else {
            seq![MInst::Lui(rd, hi as i32), MInst::Addiw(rd, rd, lo as i32)]
        }
    } else {
        proof { lemma_upper_part(imm); }
        let lo = low12(imm);
        let tail = if lo != 0 {
            seq![MInst::Slli(rd, rd, 12u32), MInst::Addi(rd, rd, lo as i32)]
        } else {
            seq![MInst::Slli(rd, rd, 12u32)]
        };
        li64_seq(rd, upper_part(imm)) + tail
    }
}

/// The address that an external call jumps to: a hash of the callee's name.
pub open spec fn call_hash(name: Seq<u8>) -> u64
    decreases name.len(),
{
    if name.len() == 0 {
        0x1000_0000u64
    } else {
        call_hash(name.drop_last()).wrapping_add(name.last() as u64).wrapping_mul(31u64)
    }
}

pub open spec fn name_bytes(s: Seq<char>) -> Seq<u8> {
    vstd::utf8::encode_utf8(s)
}

/// An instruction's expansion into real machine instructions.
pub open spec fn expand_one(inst: MInst) -> Seq<MInst> {
    match inst {
        MInst::Li64(rd, imm) => li64_seq(rd, imm),
        MInst::Ret => seq![MInst::Jalr(Reg(ZERO), Reg(RA), 0)],
        MInst::Call(name) => li64_seq(Reg(T0), call_hash(name_bytes(name@)) as i64) + seq![MInst::Jalr(Reg(RA), Reg(T0), 0)],
        _ => seq![inst],
    }
}

pub open spec fn expand(insts: Seq<MInst>) -> Seq<MInst>
    decreases insts.len(),
{
    if insts.len() == 0 {
        seq![]
    } else {
        expand(insts.drop_last()) + expand_one(insts.last())
    }
}

fn expand_li64(rd: Reg, imm: i64, out: &mut Vec<MInst>)
    ensures
        final(out)@ == old(out)@ + li64_seq(rd, imm),
    decreases abs_i64(imm),
{
    if -2048 <= imm && imm <= 2047 {
        out.push(MInst::Addi(rd, Reg(ZERO), imm as i32));
        return;
    }
    let t: i64 = (imm & 0xFFF) ^ 0x800;
    assert(0 <= t <= 4095) by (bit_vector)
        requires t == (imm & 0xFFFi64) ^ 0x800i64;
    let lo: i64 = t - 0x800;
    assert(lo == low12(imm));
    if -2147483648 <= imm && imm <= 2147483647 {
        let hi: i64 = (imm - lo) >> 12u64;
        assert(-524288 <= hi <= 524288) by (bit_vector)
            requires
                -2147483648i64 <= imm <= 2147483647i64,
                lo == ((imm & 0xFFFi64) ^ 0x800i64) - 0x800i64,
                hi == ((imm - lo) as i64) >> 12u64;
        if lo == 0 {
            out.push(MInst::Lui(rd, hi as i32));
        } else {
            out.push(MInst::Lui(rd, hi as i32));
            out.push(MInst::Addiw(rd, rd, lo as i32));
        }
        return;
    }
    proof { lemma_upper_part(imm); }
    let d: i64 = imm.wrapping_sub(lo);
    proof {
        assert(imm - (((imm & 0xFFFi64) ^ 0x800i64) - 0x800i64) >= i64::MIN) by (bit_vector);
        if imm - lo > i64::MAX {
            assert(d == (imm - lo - 0x1_0000_0000_0000_0000) as i64);
            assert(imm - lo > i64::MAX ==> (imm - lo - 0x1_0000_0000_0000_0000) as i64 == (imm - lo) as i64) by (bit_vector);
        } else {
            assert(d == imm - lo);
        }
        assert(d == (imm - low12(imm)) as i64);
    }
    let rest: i64 = d >> 12u64;
    assert(rest == upper_part(imm));
    expand_li64(rd, rest, out);
    out.push(MInst::Slli(rd, rd, 12u32));
    if lo != 0 {
        out.push(MInst::Addi(rd, rd, lo as i32));
    }
}

fn call_target(name: &String) -> (h: u64)
    ensures
        h == call_hash(name_bytes(name@)),
{
    let bytes = name.as_str().as_bytes();
    let ghost nb = name_bytes(name@);
    assert(bytes@ == nb);
    let mut hash: u64 = 0x1000_0000u64;
    let mut i: usize = 0;
    while i < bytes.len()
        invariant
            bytes@ == nb,
            i <= nb.len(),
            hash == call_hash(nb.take(i as int)),
        decreases nb.len() - i,
    {
        assert(nb.take(i as int + 1).drop_last() =~= nb.take(i as int));
        hash = hash.wrapping_add(bytes[i] as u64).wrapping_mul(31);
        i = i + 1;
    }
    assert(nb.take(nb.len() as int) =~= nb);
    hash
}

fn expand_pseudos(insts: &Vec<MInst>) -> (res: Vec<MInst>)
    ensures
        res@ == expand(insts@),
{
    let mut res: Vec<MInst> = Vec::new();
    let mut i: usize = 0;
    while i < insts.len()
        invariant
            i <= insts@.len(),
            res@ == expand(insts@.take(i as int)),
        decreases insts@.len() - i,
    {
        assert(insts@.take(i as int + 1).drop_last() =~= insts@.take(i as int));
        let ghost before = res@;
        match &insts[i] {
            MInst::Li64(rd, imm) => {
                expand_li64(*rd, *imm, &mut res);
            }
            MInst::Ret => {
                res.push(MInst::Jalr(Reg(ZERO), Reg(RA), 0));
            }
            MInst::Call(name) => {
                let hash = call_target(name);
                expand_li64(Reg(T0), hash as i64, &mut res);
                res.push(MInst::Jalr(Reg(RA), Reg(T0), 0));
                assert(res@ =~= before + expand_one(insts@[i as int]));
            }
            other => {
                res.push(crate::riscv::copy_minst(other));
            }
        }
        assert(res@ =~= before + expand_one(insts@[i as int]));
        i = i + 1;
    }
    assert(insts@.take(insts@.len() as int) =~= insts@);
    res
}

// ---------------------------------------------------------------------------
// Encoding and layout

/// The 32-bit word of a real machine instruction; `offset` is the distance
/// from the instruction to its branch or jump target.
pub open spec fn word_for(inst: MInst, offset: i32) -> u32 {
    match inst {
        MInst::Add(a0, a1, a2) => enc_r(0x33u32, a0, 0x0u32, a1, a2, 0x0u32),
        MInst::Sub(a0, a1, a2) => enc_r(0x33u32, a0, 0x0u32, a1, a2, 0x20u32),
        MInst::Mul(a0, a1, a2) => enc_r(0x33u32, a0, 0x0u32, a1, a2, 0x1u32),
        MInst::Div(a0, a1, a2) => enc_r(0x33u32, a0, 0x4u32, a1, a2, 0x1u32),
        MInst::Divu(a0, a1, a2) => enc_r(0x33u32, a0, 0x5u32, a1, a2, 0x1u32),
        MInst::Rem(a0, a1, a2) => enc_r(0x33u32, a0, 0x6u32, a1, a2, 0x1u32),
        MInst::Remu(a0, a1, a2) => enc_r(0x33u32, a0, 0x7u32, a1, a2, 0x1u32),
        MInst::Sll(a0, a1, a2) => enc_r(0x33u32, a0, 0x1u32, a1, a2, 0x0u32),
        MInst::Srl(a0, a1, a2) => enc_r(0x33u32, a0, 0x5u32, a1, a2, 0x0u32),
        MInst::Sra(a0, a1, a2) => enc_r(0x33u32, a0, 0x5u32, a1, a2, 0x20u32),
        MInst::Slt(a0, a1, a2) => enc_r(0x33u32, a0, 0x2u32, a1, a2, 0x0u32),
        MInst::Sltu(a0, a1, a2) => enc_r(0x33u32, a0, 0x3u32, a1, a2, 0x0u32),
        MInst::Xor(a0, a1, a2) => enc_r(0x33u32, a0, 0x4u32, a1, a2, 0x0u32),
        MInst::Or(a0, a1, a2) => enc_r(0x33u32, a0, 0x6u32, a1, a2, 0x0u32),
        MInst::And(a0, a1, a2) => enc_r(0x33u32, a0, 0x7u32, a1, a2, 0x0u32),
        MInst::Addw(a0, a1, a2) => enc_r(0x3bu32, a0, 0x0u32, a1, a2, 0x0u32),
        MInst::Subw(a0, a1, a2) => enc_r(0x3bu32, a0, 0x0u32, a1, a2, 0x20u32),
        MInst::Mulw(a0, a1, a2) => enc_r(0x3bu32, a0, 0x0u32, a1, a2, 0x1u32),
        MInst::Divw(a0, a1, a2) => enc_r(0x3bu32, a0, 0x4u32, a1, a2, 0x1u32),
        MInst::Divuw(a0, a1, a2) => enc_r(0x3bu32, a0, 0x5u32, a1, a2, 0x1u32),
        MInst::Remw(a0, a1, a2) => enc_r(0x3bu32, a0, 0x6u32, a1, a2, 0x1u32),
        MInst::Remuw(a0, a1, a2) => enc_r(0x3bu32, a0, 0x7u32, a1, a2, 0x1u32),
        MInst::Sllw(a0, a1, a2) => enc_r(0x3bu32, a0, 0x1u32, a1, a2, 0x0u32),
        MInst::Srlw(a0, a1, a2) => enc_r(0x3bu32, a0, 0x5u32, a1, a2, 0x0u32),
        MInst::Sraw(a0, a1, a2) => enc_r(0x3bu32, a0, 0x5u32, a1, a2, 0x20u32),
        MInst::Addi(a0, a1, a2) => enc_i(0x13u32, a0, 0x0u32, a1, a2),
        MInst::Addiw(a0, a1, a2) => enc_i(0x1bu32, a0, 0x0u32, a1, a2),
        MInst::Xori(a0, a1, a2) => enc_i(0x13u32, a0, 0x4u32, a1, a2),
        MInst::Ori(a0, a1, a2) => enc_i(0x13u32, a0, 0x6u32, a1, a2),
        MInst::Andi(a0, a1, a2) => enc_i(0x13u32, a0, 0x7u32, a1, a2),
        MInst::Slti(a0, a1, a2) => enc_i(0x13u32, a0, 0x2u32, a1, a2),
        MInst::Sltiu(a0, a1, a2) => enc_i(0x13u32, a0, 0x3u32, a1, a2),
        MInst::Lb(a0, a1, a2) => enc_i(0x3u32, a0, 0x0u32, a1, a2),
        MInst::Lh(a0, a1, a2) => enc_i(0x3u32, a0, 0x1u32, a1, a2),
        MInst::Lw(a0, a1, a2) => enc_i(0x3u32, a0, 0x2u32, a1, a2),
        MInst::Ld(a0, a1, a2) => enc_i(0x3u32, a0, 0x3u32, a1, a2),
        MInst::Lbu(a0, a1, a2) => enc_i(0x3u32, a0, 0x4u32, a1, a2),
        MInst::Lhu(a0, a1, a2) => enc_i(0x3u32, a0, 0x5u32, a1, a2),
        MInst::Lwu(a0, a1, a2) => enc_i(0x3u32, a0, 0x6u32, a1, a2),
        MInst::Jalr(a0, a1, a2) => enc_i(0x67u32, a0, 0x0u32, a1, a2),
        MInst::Slli(a0, a1, a2) => enc_i(0x13u32, a0, 0x1u32, a1, (a2 & 0x3Fu32) as i32),
        MInst::Srli(a0, a1, a2) => enc_i(0x13u32, a0, 0x5u32, a1, (a2 & 0x3Fu32) as i32),
        MInst::Srai(a0, a1, a2) => enc_i(0x13u32, a0, 0x5u32, a1, (0x400u32 | (a2 & 0x3Fu32)) as i32),
        MInst::Slliw(a0, a1, a2) => enc_i(0x1bu32, a0, 0x1u32, a1, (a2 & 0x1Fu32) as i32),
        MInst::Srliw(a0, a1, a2) => enc_i(0x1bu32, a0, 0x5u32, a1, (a2 & 0x1Fu32) as i32),
        MInst::Sraiw(a0, a1, a2) => enc_i(0x1bu32, a0, 0x5u32, a1, (0x400u32 | (a2 & 0x1Fu32)) as i32),
        MInst::Lui(a0, a1) => enc_u(0x37u32, a0, a1),
        MInst::Auipc(a0, a1) => enc_u(0x17u32, a0, a1),
        MInst::Sb(a0, a1, a2) => enc_s(0x23u32, 0x0u32, a0, a1, a2),
        MInst::Sh(a0, a1, a2) => enc_s(0x23u32, 0x1u32, a0, a1, a2),
        MInst::Sw(a0, a1, a2) => enc_s(0x23u32, 0x2u32, a0, a1, a2),
        MInst::Sd(a0, a1, a2) => enc_s(0x23u32, 0x3u32, a0, a1, a2),
        MInst::Beq(a0, a1, _) => enc_b(0x63u32, 0x0u32, a0, a1, offset),
        MInst::Bne(a0, a1, _) => enc_b(0x63u32, 0x1u32, a0, a1, offset),
        MInst::Blt(a0, a1, _) => enc_b(0x63u32, 0x4u32, a0, a1, offset),
        MInst::Bge(a0, a1, _) => enc_b(0x63u32, 0x5u32, a0, a1, offset),
        MInst::Bltu(a0, a1, _) => enc_b(0x63u32, 0x6u32, a0, a1, offset),
        MInst::Bgeu(a0, a1, _) => enc_b(0x63u32, 0x7u32, a0, a1, offset),
        MInst::Jal(a0, _) => enc_j(0x6fu32, a0, offset),
        _ => 0u32,
    }
}

/// The label that a branch or jump refers to.
pub open spec fn branch_target(inst: MInst) -> Option<Block> {
    match inst {
        MInst::Beq(_, _, b) | MInst::Bne(_, _, b) | MInst::Blt(_, _, b) | MInst::Bge(_, _, b)
        | MInst::Bltu(_, _, b) | MInst::Bgeu(_, _, b) => Some(b),
        MInst::Jal(_, b) => Some(b),
        _ => None,
    }
}

pub open spec fn is_pseudo(inst: MInst) -> bool {
    inst is Li64 || inst is Call || inst is Ret
}

/// The number of instructions of `code` that take up a word (all but labels).
pub open spec fn real_count(code: Seq<MInst>) -> nat
    decreases code.len(),
{
    if code.len() == 0 {
        0
    } else {
        real_count(code.drop_last()) + (if code.last() is Label { 0nat } else { 1nat })
    }
}

/// The byte offset at which the instruction at index `k` of `code` is placed.
pub open spec fn pc_at(code: Seq<MInst>, k: int) -> int {
    4 * (real_count(code.take(k)) as int)
}

/// The index of the last label for block `b` in `code`, or -1.
pub open spec fn label_index(code: Seq<MInst>, b: Block) -> int
    decreases code.len(),
{
    if code.len() == 0 {
        -1
    } else if code.last() == MInst::Label(b) {
        code.len() - 1
    } else {
        label_index(code.drop_last(), b)
    }
}

/// The word placed for the instruction at index `k` of `code`.
pub open spec fn word_at(code: Seq<MInst>, k: int) -> u32 {
    let offset = match branch_target(code[k]) {
        Some(b) => (pc_at(code, label_index(code, b)) - pc_at(code, k)) as i32,
        None => 0i32,
    };
    word_for(code[k], offset)
}

/// The words of the first `k` instructions of `code`, in order.
pub open spec fn words(code: Seq<MInst>, k: int) -> Seq<u32>
    decreases k,
{
    if k <= 0 {
        seq![]
    } else if code[k - 1] is Label {
        words(code, k - 1)
    } else {
        words(code, k - 1).push(word_at(code, k - 1))
    }
}

pub open spec fn le_word(w: u32) -> Seq<u8> {
    seq![(w & 0xFFu32) as u8, ((w >> 8u32) & 0xFFu32) as u8, ((w >> 16u32) & 0xFFu32) as u8, ((w >> 24u32) & 0xFFu32) as u8]
}

/// Words laid out as little-endian bytes.
pub open spec fn le_bytes(ws: Seq<u32>) -> Seq<u8>
    decreases ws.len(),
{
    if ws.len() == 0 {
        seq![]
    } else {
        le_bytes(ws.drop_last()) + le_word(ws.last())
    }
}

/// The machine code of a sequence of machine instructions.
pub open spec fn machine_code(insts: Seq<MInst>) -> Seq<u8> {
    let code = expand(insts);
    le_bytes(words(code, code.len() as int))
}

/// Machine instructions that the emitter accepts: every branch target has a
/// label, and the code fits in the offsets that branches can hold.
pub open spec fn emittable(insts: Seq<MInst>) -> bool {
    let code = expand(insts);
    &&& forall|k: int| 0 <= k < code.len() ==> (#[trigger] branch_target(code[k]) matches Some(b) ==> label_index(code, b) >= 0)
    &&& 4 * code.len() <= i32::MAX
}

pub proof fn lemma_li64_real(rd: Reg, imm: i64)
    ensures
        forall|k: int| 0 <= k < li64_seq(rd, imm).len() ==> !is_pseudo(#[trigger] li64_seq(rd, imm)[k]) && !(li64_seq(rd, imm)[k] is Label),
    decreases abs_i64(imm),
{
    if !fits_i12(imm) && !fits_i32(imm) {
        lemma_upper_part(imm);
        lemma_li64_real(rd, upper_part(imm));
    }
}

pub proof fn lemma_expand_real(insts: Seq<MInst>)
    ensures
        forall|k: int| 0 <= k < expand(insts).len() ==> !is_pseudo(#[trigger] expand(insts)[k]),
    decreases insts.len(),
{
    if insts.len() > 0 {
        lemma_expand_real(insts.drop_last());
        let last = insts.last();
        match last {
            MInst::Li64(rd, imm) => lemma_li64_real(rd, imm),
            MInst::Call(name) => lemma_li64_real(Reg(T0), call_hash(name_bytes(name@)) as i64),
            _ => {},
        }
        let a = expand(insts.drop_last());
        let b = expand_one(last);
        assert forall|k: int| 0 <= k < expand(insts).len() implies !is_pseudo(#[trigger] expand(insts)[k]) by {
            if k >= a.len() {
                assert(expand(insts)[k] == b[k - a.len()]);
            } else {
                assert(expand(insts)[k] == a[k]);
            }
        }
    }
}

pub proof fn lemma_real_count_bound(code: Seq<MInst>)
    ensures
        real_count(code) <= code.len(),
    decreases code.len(),
{
    if code.len() > 0 {
        lemma_real_count_bound(code.drop_last());
    }
}

pub proof fn lemma_label_index_bound(code: Seq<MInst>, b: Block)
    ensures
        -1 <= label_index(code, b) < code.len(),
        label_index(code, b) >= 0 ==> code[label_index(code, b)] == MInst::Label(b),
    decreases code.len(),
{
    if code.len() > 0 && code.last() != MInst::Label(b) {
        lemma_label_index_bound(code.drop_last(), b);
    }
}

/// The last entry for `b` in a table of label offsets.
pub open spec fn lookup_label(labels: Seq<(Block, i32)>, b: Block) -> Option<i32>
    decreases labels.len(),
{
    if labels.len() == 0 {
        None
    } else if labels.last().0 == b {
        Some(labels.last().1)
    } else {
        lookup_label(labels.drop_last(), b)
    }
}

fn find_label(labels: &Vec<(Block, i32)>, b: Block) -> (r: Option<i32>)
    ensures
        r == lookup_label(labels@, b),
{
    let mut i: usize = labels.len();
    assert(labels@.take(i as int) =~= labels@);
    while i > 0
        invariant
            i <= labels@.len(),
            lookup_label(labels@, b) == lookup_label(labels@.take(i as int), b),
        decreases i,
    {
        let ghost t = labels@.take(i as int);
        assert(t.drop_last() =~= labels@.take(i as int - 1));
        if labels[i - 1].0 == b {
            return Some(labels[i - 1].1);
        }
        i = i - 1;
    }
    None
}

fn encode_word(inst: &MInst, offset: i32) -> (w: u32)
    requires
        !is_pseudo(*inst),
        !(*inst is Label),
    ensures
        w == word_for(*inst, offset),
{
    match inst {
        MInst::Add(a0, a1, a2) => encode_r(0x33u32, *a0, 0x0u32, *a1, *a2, 0x0u32),
        MInst::Sub(a0, a1, a2) => encode_r(0x33u32, *a0, 0x0u32, *a1, *a2, 0x20u32),
        MInst::Mul(a0, a1, a2) => encode_r(0x33u32, *a0, 0x0u32, *a1, *a2, 0x1u32),
        MInst::Div(a0, a1, a2) => encode_r(0x33u32, *a0, 0x4u32, *a1, *a2, 0x1u32),
        MInst::Divu(a0, a1, a2) => encode_r(0x33u32, *a0, 0x5u32, *a1, *a2, 0x1u32),
        MInst::Rem(a0, a1, a2) => encode_r(0x33u32, *a0, 0x6u32, *a1, *a2, 0x1u32),
        MInst::Remu(a0, a1, a2) => encode_r(0x33u32, *a0, 0x7u32, *a1, *a2, 0x1u32),
        MInst::Sll(a0, a1, a2) => encode_r(0x33u32, *a0, 0x1u32, *a1, *a2, 0x0u32),
        MInst::Srl(a0, a1, a2) => encode_r(0x33u32, *a0, 0x5u32, *a1, *a2, 0x0u32),
        MInst::Sra(a0, a1, a2) => encode_r(0x33u32, *a0, 0x5u32, *a1, *a2, 0x20u32),
        MInst::Slt(a0, a1, a2) => encode_r(0x33u32, *a0, 0x2u32, *a1, *a2, 0x0u32),
        MInst::Sltu(a0, a1, a2) => encode_r(0x33u32, *a0, 0x3u32, *a1, *a2, 0x0u32),
        MInst::Xor(a0, a1, a2) => encode_r(0x33u32, *a0, 0x4u32, *a1, *a2, 0x0u32),
        MInst::Or(a0, a1, a2) => encode_r(0x33u32, *a0, 0x6u32, *a1, *a2, 0x0u32),
        MInst::And(a0, a1, a2) => encode_r(0x33u32, *a0, 0x7u32, *a1, *a2, 0x0u32),
        MInst::Addw(a0, a1, a2) => encode_r(0x3bu32, *a0, 0x0u32, *a1, *a2, 0x0u32),
        MInst::Subw(a0, a1, a2) => encode_r(0x3bu32, *a0, 0x0u32, *a1, *a2, 0x20u32),
        MInst::Mulw(a0, a1, a2) => encode_r(0x3bu32, *a0, 0x0u32, *a1, *a2, 0x1u32),
        MInst::Divw(a0, a1, a2) => encode_r(0x3bu32, *a0, 0x4u32, *a1, *a2, 0x1u32),
        MInst::Divuw(a0, a1, a2) => encode_r(0x3bu32, *a0, 0x5u32, *a1, *a2, 0x1u32),
        MInst::Remw(a0, a1, a2) => encode_r(0x3bu32, *a0, 0x6u32, *a1, *a2, 0x1u32),
        MInst::Remuw(a0, a1, a2) => encode_r(0x3bu32, *a0, 0x7u32, *a1, *a2, 0x1u32),
        MInst::Sllw(a0, a1, a2) => encode_r(0x3bu32, *a0, 0x1u32, *a1, *a2, 0x0u32),
        MInst::Srlw(a0, a1, a2) => encode_r(0x3bu32, *a0, 0x5u32, *a1, *a2, 0x0u32),
        MInst::Sraw(a0, a1, a2) => encode_r(0x3bu32, *a0, 0x5u32, *a1, *a2, 0x20u32),
        MInst::Addi(a0, a1, a2) => encode_i(0x13u32, *a0, 0x0u32, *a1, *a2),
        MInst::Addiw(a0, a1, a2) => encode_i(0x1bu32, *a0, 0x0u32, *a1, *a2),
        MInst::Xori(a0, a1, a2) => encode_i(0x13u32, *a0, 0x4u32, *a1, *a2),
        MInst::Ori(a0, a1, a2) => encode_i(0x13u32, *a0, 0x6u32, *a1, *a2),
        MInst::Andi(a0, a1, a2) => encode_i(0x13u32, *a0, 0x7u32, *a1, *a2),
        MInst::Slti(a0, a1, a2) => encode_i(0x13u32, *a0, 0x2u32, *a1, *a2),
        MInst::Sltiu(a0, a1, a2) => encode_i(0x13u32, *a0, 0x3u32, *a1, *a2),
        MInst::Lb(a0, a1, a2) => encode_i(0x3u32, *a0, 0x0u32, *a1, *a2),
        MInst::Lh(a0, a1, a2) => encode_i(0x3u32, *a0, 0x1u32, *a1, *a2),
        MInst::Lw(a0, a1, a2) => encode_i(0x3u32, *a0, 0x2u32, *a1, *a2),
        MInst::Ld(a0, a1, a2) => encode_i(0x3u32, *a0, 0x3u32, *a1, *a2),
        MInst::Lbu(a0, a1, a2) => encode_i(0x3u32, *a0, 0x4u32, *a1, *a2),
        MInst::Lhu(a0, a1, a2) => encode_i(0x3u32, *a0, 0x5u32, *a1, *a2),
        MInst::Lwu(a0, a1, a2) => encode_i(0x3u32, *a0, 0x6u32, *a1, *a2),
        MInst::Jalr(a0, a1, a2) => encode_i(0x67u32, *a0, 0x0u32, *a1, *a2),
        MInst::Slli(a0, a1, a2) => encode_i(0x13u32, *a0, 0x1u32, *a1, (*a2 & 0x3Fu32) as i32),
        MInst::Srli(a0, a1, a2) => encode_i(0x13u32, *a0, 0x5u32, *a1, (*a2 & 0x3Fu32) as i32),
        MInst::Srai(a0, a1, a2) => encode_i(0x13u32, *a0, 0x5u32, *a1, (0x400u32 | (*a2 & 0x3Fu32)) as i32),
        MInst::Slliw(a0, a1, a2) => encode_i(0x1bu32, *a0, 0x1u32, *a1, (*a2 & 0x1Fu32) as i32),
        MInst::Srliw(a0, a1, a2) => encode_i(0x1bu32, *a0, 0x5u32, *a1, (*a2 & 0x1Fu32) as i32),
        MInst::Sraiw(a0, a1, a2) => encode_i(0x1bu32, *a0, 0x5u32, *a1, (0x400u32 | (*a2 & 0x1Fu32)) as i32),
        MInst::Lui(a0, a1) => encode_u(0x37u32, *a0, *a1),
        MInst::Auipc(a0, a1) => encode_u(0x17u32, *a0, *a1),
        MInst::Sb(a0, a1, a2) => encode_s(0x23u32, 0x0u32, *a0, *a1, *a2),
        MInst::Sh(a0, a1, a2) => encode_s(0x23u32, 0x1u32, *a0, *a1, *a2),
        MInst::Sw(a0, a1, a2) => encode_s(0x23u32, 0x2u32, *a0, *a1, *a2),
        MInst::Sd(a0, a1, a2) => encode_s(0x23u32, 0x3u32, *a0, *a1, *a2),
        MInst::Beq(a0, a1, _) => encode_b(0x63u32, 0x0u32, *a0, *a1, offset),
        MInst::Bne(a0, a1, _) => encode_b(0x63u32, 0x1u32, *a0, *a1, offset),
        MInst::Blt(a0, a1, _) => encode_b(0x63u32, 0x4u32, *a0, *a1, offset),
        MInst::Bge(a0, a1, _) => encode_b(0x63u32, 0x5u32, *a0, *a1, offset),
        MInst::Bltu(a0, a1, _) => encode_b(0x63u32, 0x6u32, *a0, *a1, offset),
        MInst::Bgeu(a0, a1, _) => encode_b(0x63u32, 0x7u32, *a0, *a1, offset),
        MInst::Jal(a0, _) => encode_j(0x6fu32, *a0, offset),
        _ => 0u32,
    }
}

fn push_le_word(bytes: &mut Vec<u8>, w: u32)
    ensures
        final(bytes)@ == old(bytes)@ + le_word(w),
{
    bytes.push((w & 0xFFu32) as u8);
    bytes.push(((w >> 8u32) & 0xFFu32) as u8);
    bytes.push(((w >> 16u32) & 0xFFu32) as u8);
    bytes.push(((w >> 24u32) & 0xFFu32) as u8);
    assert(final(bytes)@ =~= old(bytes)@ + le_word(w));
}

fn label_present(code: &Vec<MInst>, b: Block) -> (r: bool)
    ensures
        r == (label_index(code@, b) >= 0),
{
    let mut i: usize = code.len();
    assert(code@.take(i as int) =~= code@);
    while i > 0
        invariant
            i <= code@.len(),
            label_index(code@, b) >= 0 <==> label_index(code@.take(i as int), b) >= 0,
        decreases i,
    {
        let ghost t = code@.take(i as int);
        assert(t.drop_last() =~= code@.take(i as int - 1));
        if let MInst::Label(x) = &code[i - 1] {
            if *x == b {
                return true;
            }
        }
        i = i - 1;
    }
    false
}

fn target_of(inst: &MInst) -> (r: Option<Block>)
    ensures
        r == branch_target(*inst),
{
    match inst {
        MInst::Beq(_, _, t) | MInst::Bne(_, _, t) | MInst::Blt(_, _, t) | MInst::Bge(_, _, t)
        | MInst::Bltu(_, _, t) | MInst::Bgeu(_, _, t) | MInst::Jal(_, t) => Some(*t),
        _ => None,
    }
}

/// Tells whether the emitter accepts the machine instructions: each branch
/// target has a label, and the code fits the offsets that branches hold.
pub fn is_emittable(insts: &Vec<MInst>) -> (r: bool)
    ensures
        r == emittable(insts@),
{
    let code = expand_pseudos(insts);
    if code.len() > 536_870_911 {
        return false;
    }
    let mut j: usize = 0;
    while j < code.len()
        invariant
            code@ == expand(insts@),
            j <= code@.len(),
            forall|i: int| 0 <= i < j ==> (#[trigger] branch_target(code@[i]) matches Some(b) ==> label_index(code@, b) >= 0),
        decreases code@.len() - j,
    {
        if let Some(b) = target_of(&code[j]) {
            if !label_present(&code, b) {
                assert(branch_target(code@[j as int]) == Some(b));
                return false;
            }
        }
        j = j + 1;
    }
    true
}

/// Emits RISC-V 64-bit little-endian machine code bytes from a lowered function.
pub fn emit_machine_code(lowered: &LoweredFunction) -> (bytes: Vec<u8>)
    requires
        emittable(lowered.insts@),
    ensures
        bytes@ == machine_code(lowered.insts@),
{
    let expanded = expand_pseudos(&lowered.insts);
    let ghost code = expanded@;
    proof {
        lemma_expand_real(lowered.insts@);
    }

    // Pass 1: instruction offsets and label locations.
    let mut labels: Vec<(Block, i32)> = Vec::new();
    let mut current_pc: i32 = 0;
    let mut i: usize = 0;
    while i < expanded.len()
        invariant
            code == expanded@,
            4 * code.len() <= i32::MAX,
            i <= code.len(),
            current_pc == pc_at(code, i as int),
            forall|b: Block| #[trigger] lookup_label(labels@, b) == (if label_index(code.take(i as int), b) >= 0 {
                Some(pc_at(code, label_index(code.take(i as int), b)) as i32)
            } else {
                None
            }),
        decreases code.len() - i,
    {
        let ghost ti = code.take(i as int);
        let ghost tn = code.take(i as int + 1);
        assert(tn.drop_last() =~= ti);
        proof {
            lemma_real_count_bound(ti);
        }
        let ghost old_labels = labels@;
        assert(tn.last() == code[i as int]);
        match &expanded[i] {
            MInst::Label(block) => {
                labels.push((*block, current_pc));
                assert(code[i as int] == MInst::Label(*block));
                assert forall|b: Block| #[trigger] lookup_label(labels@, b) == (if label_index(tn, b) >= 0 {
                    Some(pc_at(code, label_index(tn, b)) as i32)
                } else {
                    None
                }) by {
                    assert(labels@.drop_last() =~= old_labels);
                    if b == *block {
                        assert(label_index(tn, b) == i);
                        assert(lookup_label(labels@, b) == Some(current_pc));
                    } else {
                        assert(tn.last() != MInst::Label(b));
                        assert(label_index(tn, b) == label_index(ti, b));
                        assert(lookup_label(labels@, b) == lookup_label(old_labels, b));
                    }
                }
            }
            _ => {
                assert(!(code[i as int] is Label));
                assert(real_count(tn) == real_count(ti) + 1);
                current_pc = current_pc + 4;
                assert forall|b: Block| #[trigger] lookup_label(labels@, b) == (if label_index(tn, b) >= 0 {
                    Some(pc_at(code, label_index(tn, b)) as i32)
                } else {
                    None
                }) by {
                    assert(label_index(tn, b) == label_index(ti, b));
                }
            }
        }
        assert(code.take(i as int + 1).take(i as int) =~= ti);
        i = i + 1;
    }
    assert(code.take(code.len() as int) =~= code);

    // Pass 2: encode words and resolve branch and jump targets.
    let mut bytes: Vec<u8> = Vec::new();
    current_pc = 0;
    let mut k: usize = 0;
    while k < expanded.len()
        invariant
            code == expanded@,
            4 * code.len() <= i32::MAX,
            forall|j: int| 0 <= j < code.len() ==> !is_pseudo(#[trigger] code[j]),
            forall|j: int| 0 <= j < code.len() ==> (#[trigger] branch_target(code[j]) matches Some(b) ==> label_index(code, b) >= 0),
            forall|b: Block| #[trigger] lookup_label(labels@, b) == (if label_index(code, b) >= 0 {
                Some(pc_at(code, label_index(code, b)) as i32)
            } else {
                None
            }),
            k <= code.len(),
            current_pc == pc_at(code, k as int),
            bytes@ == le_bytes(words(code, k as int)),
        decreases code.len() - k,
    {
        let ghost ti = code.take(k as int);
        assert(code.take(k as int + 1).drop_last() =~= ti);
        proof {
            lemma_real_count_bound(ti);
        }
        let inst = &expanded[k];
        if inst.is_label() {
        } else {
            let offset: i32 = match inst {
                MInst::Beq(_, _, t) | MInst::Bne(_, _, t) | MInst::Blt(_, _, t) | MInst::Bge(_, _, t)
                | MInst::Bltu(_, _, t) | MInst::Bgeu(_, _, t) | MInst::Jal(_, t) => {
                    let target_pc = find_label(&labels, *t);
                    proof {
                        let li = label_index(code, *t);
                        assert(branch_target(code[k as int]) == Some(*t));
                        lemma_label_index_bound(code, *t);
                        assert(code.take(li).len() == li);
                        lemma_real_count_bound(code.take(li));
                    }
                    target_pc.unwrap() - current_pc
                }
                _ => 0,
            };
            let w = encode_word(inst, offset);
            let ghost before = bytes@;
            push_le_word(&mut bytes, w);
            assert(words(code, k as int + 1) == words(code, k as int).push(w));
            assert(words(code, k as int + 1).drop_last() =~= words(code, k as int));
            current_pc = current_pc + 4;
        }
        k = k + 1;
    }
    bytes
}

} // verus!
