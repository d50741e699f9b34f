//! What the interpreter does with the word emitted for each machine
//! instruction (arithmetic and logic, loads and stores, branches and jumps,
//! upper immediates): executing it performs the instruction's operation as
//! the RV64IM instruction set defines it, and nothing else.
use vstd::prelude::*;
use crate::emit::{enc_i, enc_r, word_for};
use crate::load_laws::{after, lemma_decode_i, lemma_decode_u, lemma_set_keeps_zero, regs_ok};
use crate::arena::Block;
use crate::riscv::{MInst, Reg};
use crate::vm::{alu32, alu64, alu_imm32, alu_imm64, div_s32, div_s64, fetch, grow, le16, le32, le64, rem_s32, rem_s64, sext_b, sext_i, sext_j, sext_s, sext_u, step, store_bytes, Machine};

verus! {

/// What an arithmetic or logic instruction writes, by the instruction set's
/// definition: the destination register and the value, given the registers
/// before it. Shift amounts of register shifts are taken modulo the width.
pub open spec fn alu_effect(inst: MInst, regs: Seq<u64>) -> Option<(Reg, u64)> {
    match inst {
        MInst::Add(d, a, b) => { let x = regs[a.0 as int]; let y = regs[b.0 as int]; Some((d, x.wrapping_add(y))) },
        MInst::Sub(d, a, b) => { let x = regs[a.0 as int]; let y = regs[b.0 as int]; Some((d, x.wrapping_sub(y))) },
        MInst::Mul(d, a, b) => { let x = regs[a.0 as int]; let y = regs[b.0 as int]; Some((d, x.wrapping_mul(y))) },
        MInst::Divu(d, a, b) => { let x = regs[a.0 as int]; let y = regs[b.0 as int]; Some((d, if y == 0 { u64::MAX } else { x / y })) },
        MInst::Remu(d, a, b) => { let x = regs[a.0 as int]; let y = regs[b.0 as int]; Some((d, if y == 0 { x } else { x % y })) },
        MInst::Div(d, a, b) => { let x = regs[a.0 as int]; let y = regs[b.0 as int]; Some((d, div_s64(x as i64, y as i64) as u64)) },
        MInst::Rem(d, a, b) => { let x = regs[a.0 as int]; let y = regs[b.0 as int]; Some((d, rem_s64(x as i64, y as i64) as u64)) },
        MInst::Sll(d, a, b) => { let x = regs[a.0 as int]; let y = regs[b.0 as int]; Some((d, x << (y % 64))) },
        MInst::Srl(d, a, b) => { let x = regs[a.0 as int]; let y = regs[b.0 as int]; Some((d, x >> (y % 64))) },
        MInst::Sra(d, a, b) => { let x = regs[a.0 as int]; let y = regs[b.0 as int]; Some((d, ((x as i64) >> (y % 64)) as u64)) },
        MInst::Slt(d, a, b) => { let x = regs[a.0 as int]; let y = regs[b.0 as int]; Some((d, if (x as i64) < (y as i64) { 1u64 } else { 0u64 })) },
        MInst::Sltu(d, a, b) => { let x = regs[a.0 as int]; let y = regs[b.0 as int]; Some((d, if x < y { 1u64 } else { 0u64 })) },
        MInst::Xor(d, a, b) => { let x = regs[a.0 as int]; let y = regs[b.0 as int]; Some((d, x ^ y)) },
        MInst::Or(d, a, b) => { let x = regs[a.0 as int]; let y = regs[b.0 as int]; Some((d, x | y)) },
        MInst::And(d, a, b) => { let x = regs[a.0 as int]; let y = regs[b.0 as int]; Some((d, x & y)) },
        MInst::Addw(d, a, b) => { let x = regs[a.0 as int]; let y = regs[b.0 as int]; Some((d, (x as i32).wrapping_add(y as i32) as i64 as u64)) },
        MInst::Subw(d, a, b) => { let x = regs[a.0 as int]; let y = regs[b.0 as int]; Some((d, (x as i32).wrapping_sub(y as i32) as i64 as u64)) },
        MInst::Mulw(d, a, b) => { let x = regs[a.0 as int]; let y = regs[b.0 as int]; Some((d, (x as i32).wrapping_mul(y as i32) as i64 as u64)) },
        MInst::Divw(d, a, b) => { let x = regs[a.0 as int]; let y = regs[b.0 as int]; Some((d, div_s32(x as i32, y as i32) as i64 as u64)) },
        MInst::Divuw(d, a, b) => { let x = regs[a.0 as int]; let y = regs[b.0 as int]; Some((d, if y as u32 == 0 { u64::MAX } else { ((x as u32) / (y as u32)) as i32 as i64 as u64 })) },
        MInst::Remw(d, a, b) => { let x = regs[a.0 as int]; let y = regs[b.0 as int]; Some((d, rem_s32(x as i32, y as i32) as i64 as u64)) },
        MInst::Remuw(d, a, b) => { let x = regs[a.0 as int]; let y = regs[b.0 as int]; Some((d, if y as u32 == 0 { x as u32 as i32 as i64 as u64 } else { ((x as u32) % (y as u32)) as i32 as i64 as u64 })) },
        MInst::Sllw(d, a, b) => { let x = regs[a.0 as int]; let y = regs[b.0 as int]; Some((d, ((x as i32) << ((y % 32) as u32)) as i64 as u64)) },
        MInst::Srlw(d, a, b) => { let x = regs[a.0 as int]; let y = regs[b.0 as int]; Some((d, ((x as u32) >> ((y % 32) as u32)) as i32 as i64 as u64)) },
        MInst::Sraw(d, a, b) => { let x = regs[a.0 as int]; let y = regs[b.0 as int]; Some((d, ((x as i32) >> ((y % 32) as u32)) as i64 as u64)) },
        MInst::Addi(d, a, i) => { let x = regs[a.0 as int]; Some((d, x.wrapping_add(i as i64 as u64))) },
        MInst::Xori(d, a, i) => { let x = regs[a.0 as int]; Some((d, x ^ (i as i64 as u64))) },
        MInst::Ori(d, a, i) => { let x = regs[a.0 as int]; Some((d, x | (i as i64 as u64))) },
        MInst::Andi(d, a, i) => { let x = regs[a.0 as int]; Some((d, x & (i as i64 as u64))) },
        MInst::Slti(d, a, i) => { let x = regs[a.0 as int]; Some((d, if (x as i64) < (i as i64) { 1u64 } else { 0u64 })) },
        MInst::Sltiu(d, a, i) => { let x = regs[a.0 as int]; Some((d, if x < (i as i64 as u64) { 1u64 } else { 0u64 })) },
        MInst::Addiw(d, a, i) => { let x = regs[a.0 as int]; Some((d, (x as i32).wrapping_add(i) as i64 as u64)) },
        MInst::Slli(d, a, sh) => { let x = regs[a.0 as int]; Some((d, x << sh)) },
        MInst::Srli(d, a, sh) => { let x = regs[a.0 as int]; Some((d, x >> sh)) },
        MInst::Srai(d, a, sh) => { let x = regs[a.0 as int]; Some((d, ((x as i64) >> sh) as u64)) },
        MInst::Slliw(d, a, sh) => { let x = regs[a.0 as int]; Some((d, ((x as i32) << sh) as i64 as u64)) },
        MInst::Srliw(d, a, sh) => { let x = regs[a.0 as int]; Some((d, ((x as u32) >> sh) as i32 as i64 as u64)) },
        MInst::Sraiw(d, a, sh) => { let x = regs[a.0 as int]; Some((d, ((x as i32) >> sh) as i64 as u64)) },
        _ => None,
    }
}

/// Whether `x` lies below `y` when both 64-bit patterns are read as
/// two's-complement signed integers: a pattern with its top bit set is
/// negative, below every other, and patterns of one sign are ordered as
/// unsigned numbers.
pub open spec fn signed_less(x: u64, y: u64) -> bool {
    let nx = x >= 0x8000_0000_0000_0000u64;
    let ny = y >= 0x8000_0000_0000_0000u64;
    if nx != ny { nx } else { x < y }
}

/// The instruction's registers exist and its immediate fits its field.
pub open spec fn alu_ok(inst: MInst) -> bool {
    match inst {
        MInst::Add(d, a, b) => d.0 < 32 && a.0 < 32 && b.0 < 32,
        MInst::Sub(d, a, b) => d.0 < 32 && a.0 < 32 && b.0 < 32,
        MInst::Mul(d, a, b) => d.0 < 32 && a.0 < 32 && b.0 < 32,
        MInst::Divu(d, a, b) => d.0 < 32 && a.0 < 32 && b.0 < 32,
        MInst::Remu(d, a, b) => d.0 < 32 && a.0 < 32 && b.0 < 32,
        MInst::Div(d, a, b) => d.0 < 32 && a.0 < 32 && b.0 < 32,
        MInst::Rem(d, a, b) => d.0 < 32 && a.0 < 32 && b.0 < 32,
        MInst::Sll(d, a, b) => d.0 < 32 && a.0 < 32 && b.0 < 32,
        MInst::Srl(d, a, b) => d.0 < 32 && a.0 < 32 && b.0 < 32,
        MInst::Sra(d, a, b) => d.0 < 32 && a.0 < 32 && b.0 < 32,
        MInst::Slt(d, a, b) => d.0 < 32 && a.0 < 32 && b.0 < 32,
        MInst::Sltu(d, a, b) => d.0 < 32 && a.0 < 32 && b.0 < 32,
        MInst::Xor(d, a, b) => d.0 < 32 && a.0 < 32 && b.0 < 32,
        MInst::Or(d, a, b) => d.0 < 32 && a.0 < 32 && b.0 < 32,
        MInst::And(d, a, b) => d.0 < 32 && a.0 < 32 && b.0 < 32,
        MInst::Addw(d, a, b) => d.0 < 32 && a.0 < 32 && b.0 < 32,
        MInst::Subw(d, a, b) => d.0 < 32 && a.0 < 32 && b.0 < 32,
        MInst::Mulw(d, a, b) => d.0 < 32 && a.0 < 32 && b.0 < 32,
        MInst::Divw(d, a, b) => d.0 < 32 && a.0 < 32 && b.0 < 32,
        MInst::Divuw(d, a, b) => d.0 < 32 && a.0 < 32 && b.0 < 32,
        MInst::Remw(d, a, b) => d.0 < 32 && a.0 < 32 && b.0 < 32,
        MInst::Remuw(d, a, b) => d.0 < 32 && a.0 < 32 && b.0 < 32,
        MInst::Sllw(d, a, b) => d.0 < 32 && a.0 < 32 && b.0 < 32,
        MInst::Srlw(d, a, b) => d.0 < 32 && a.0 < 32 && b.0 < 32,
        MInst::Sraw(d, a, b) => d.0 < 32 && a.0 < 32 && b.0 < 32,
        MInst::Addi(d, a, i) => d.0 < 32 && a.0 < 32 && -2048 <= i <= 2047,
        MInst::Xori(d, a, i) => d.0 < 32 && a.0 < 32 && -2048 <= i <= 2047,
        MInst::Ori(d, a, i) => d.0 < 32 && a.0 < 32 && -2048 <= i <= 2047,
        MInst::Andi(d, a, i) => d.0 < 32 && a.0 < 32 && -2048 <= i <= 2047,
        MInst::Slti(d, a, i) => d.0 < 32 && a.0 < 32 && -2048 <= i <= 2047,
        MInst::Sltiu(d, a, i) => d.0 < 32 && a.0 < 32 && -2048 <= i <= 2047,
        MInst::Addiw(d, a, i) => d.0 < 32 && a.0 < 32 && -2048 <= i <= 2047,
        MInst::Slli(d, a, sh) => d.0 < 32 && a.0 < 32 && sh < 64,
        MInst::Srli(d, a, sh) => d.0 < 32 && a.0 < 32 && sh < 64,
        MInst::Srai(d, a, sh) => d.0 < 32 && a.0 < 32 && sh < 64,
        MInst::Slliw(d, a, sh) => d.0 < 32 && a.0 < 32 && sh < 32,
        MInst::Srliw(d, a, sh) => d.0 < 32 && a.0 < 32 && sh < 32,
        MInst::Sraiw(d, a, sh) => d.0 < 32 && a.0 < 32 && sh < 32,
        _ => false,
    }
}

pub(crate) proof fn lemma_decode_r(w: u32, opcode: u32, rd: u8, f3: u32, rs1: u8, rs2: u8, f7: u32)
    requires
        w == opcode | ((rd as u32) << 7u32) | (f3 << 12u32) | ((rs1 as u32) << 15u32) | ((rs2 as u32) << 20u32) | (f7 << 25u32),
        opcode < 128,
        rd < 32,
        f3 < 8,
        rs1 < 32,
        rs2 < 32,
        f7 < 128,
    ensures
        w & 0x7Fu32 == opcode,
        ((w >> 7u32) & 0x1Fu32) == rd as u32,
        (w >> 12u32) & 0x7u32 == f3,
        ((w >> 15u32) & 0x1Fu32) == rs1 as u32,
        ((w >> 20u32) & 0x1Fu32) == rs2 as u32,
        (w >> 25u32) & 0x7Fu32 == f7,
{
    assert(w & 0x7Fu32 == opcode && ((w >> 7u32) & 0x1Fu32) == rd as u32 && (w >> 12u32) & 0x7u32 == f3
        && ((w >> 15u32) & 0x1Fu32) == rs1 as u32 && ((w >> 20u32) & 0x1Fu32) == rs2 as u32
        && (w >> 25u32) & 0x7Fu32 == f7) by (bit_vector)
        requires
            w == opcode | ((rd as u32) << 7u32) | (f3 << 12u32) | ((rs1 as u32) << 15u32) | ((rs2 as u32) << 20u32) | (f7 << 25u32),
            opcode < 128, rd < 32, f3 < 8, rs1 < 32, rs2 < 32, f7 < 128;
}

pub(crate) proof fn lemma_decode_shift(w: u32, opcode: u32, rd: u8, f3: u32, rs: u8, imm: u32)
    requires
        w == opcode | ((rd as u32) << 7u32) | (f3 << 12u32) | ((rs as u32) << 15u32) | ((((imm as i32) as u32) & 0xFFFu32) << 20u32),
        opcode < 128,
        rd < 32,
        f3 < 8,
        rs < 32,
        imm < 2048,
    ensures
        w & 0x7Fu32 == opcode,
        ((w >> 7u32) & 0x1Fu32) == rd as u32,
        (w >> 12u32) & 0x7u32 == f3,
        ((w >> 15u32) & 0x1Fu32) == rs as u32,
        (w >> 20u32) & 0x3Fu32 == imm & 0x3Fu32,
        (w >> 20u32) & 0x1Fu32 == imm & 0x1Fu32,
        (w >> 26u32) & 0x3Fu32 == (imm >> 6u32) & 0x3Fu32,
        (w >> 30u32) & 1u32 == (imm >> 10u32) & 1u32,
{
    assert(w & 0x7Fu32 == opcode && ((w >> 7u32) & 0x1Fu32) == rd as u32 && (w >> 12u32) & 0x7u32 == f3
        && ((w >> 15u32) & 0x1Fu32) == rs as u32 && (w >> 20u32) & 0x3Fu32 == imm & 0x3Fu32
        && (w >> 20u32) & 0x1Fu32 == imm & 0x1Fu32 && (w >> 26u32) & 0x3Fu32 == (imm >> 6u32) & 0x3Fu32
        && (w >> 30u32) & 1u32 == (imm >> 10u32) & 1u32) by (bit_vector)
        requires
            w == opcode | ((rd as u32) << 7u32) | (f3 << 12u32) | ((rs as u32) << 15u32) | ((((imm as i32) as u32) & 0xFFFu32) << 20u32),
            opcode < 128, rd < 32, f3 < 8, rs < 32, imm < 2048;
}

proof fn lemma_shift_imm(sh: u32)
    ensures
        sh < 64 ==> (sh & 0x3Fu32) & 0x3Fu32 == sh && ((sh & 0x3Fu32) >> 6u32) & 0x3Fu32 == 0
            && (0x400u32 | (sh & 0x3Fu32)) & 0x3Fu32 == sh && ((0x400u32 | (sh & 0x3Fu32)) >> 6u32) & 0x3Fu32 == 0x10
            && (sh & 0x3Fu32) < 2048 && (0x400u32 | (sh & 0x3Fu32)) < 2048,
        sh < 32 ==> (sh & 0x1Fu32) & 0x1Fu32 == sh && ((sh & 0x1Fu32) >> 10u32) & 1u32 == 0
            && (0x400u32 | (sh & 0x1Fu32)) & 0x1Fu32 == sh && ((0x400u32 | (sh & 0x1Fu32)) >> 10u32) & 1u32 == 1
            && (sh & 0x1Fu32) < 2048 && (0x400u32 | (sh & 0x1Fu32)) < 2048,
{
    assert((sh < 64 ==> (sh & 0x3Fu32) & 0x3Fu32 == sh && ((sh & 0x3Fu32) >> 6u32) & 0x3Fu32 == 0
            && (0x400u32 | (sh & 0x3Fu32)) & 0x3Fu32 == sh && ((0x400u32 | (sh & 0x3Fu32)) >> 6u32) & 0x3Fu32 == 0x10
            && (sh & 0x3Fu32) < 2048 && (0x400u32 | (sh & 0x3Fu32)) < 2048)
        && (sh < 32 ==> (sh & 0x1Fu32) & 0x1Fu32 == sh && ((sh & 0x1Fu32) >> 10u32) & 1u32 == 0
            && (0x400u32 | (sh & 0x1Fu32)) & 0x1Fu32 == sh && ((0x400u32 | (sh & 0x1Fu32)) >> 10u32) & 1u32 == 1
            && (sh & 0x1Fu32) < 2048 && (0x400u32 | (sh & 0x1Fu32)) < 2048)) by (bit_vector);
}

proof fn lemma_shift_amounts(y: u64)
    ensures
        y & 0x3Fu64 == y % 64,
        ((y as i32) & 0x1Fi32) as u32 == (y % 32) as u32,
        (y as i32) as u32 == y as u32,
{
    assert((y as i32) as u32 == y as u32 && y & 0x3Fu64 == y % 64
        && ((y as i32) & 0x1Fi32) as u32 == (y % 32) as u32) by (bit_vector);
}

/// One register-register word: the machine applies the operation that the
/// word's function codes select to the two source registers.
proof fn lemma_step_r(m: Machine, opcode: u32, d: Reg, f3: u32, a: Reg, b: Reg, f7: u32)
    requires
        regs_ok(m),
        opcode == 0x33u32 || opcode == 0x3bu32,
        0 < d.0 < 32,
        a.0 < 32,
        b.0 < 32,
        f3 < 8,
        f7 < 128,
        0 <= m.pc,
        m.pc + 4 <= m.memory.len(),
        fetch(m.memory, m.pc) == enc_r(opcode, d, f3, a, b, f7),
    ensures
        ({
            let x = m.regs[a.0 as int];
            let y = m.regs[b.0 as int];
            let r = if opcode == 0x33u32 { alu64(f3, f7, x, y) } else { alu32(f3, f7, x, y) };
            step(m) == match r { Some(v) => Some(after(m, d, v, 1)), None => None::<Machine> }
        }),
{
    let w = fetch(m.memory, m.pc);
    lemma_decode_r(w, opcode, d.0, f3, a.0, b.0, f7);
    let x = m.regs[a.0 as int];
    let y = m.regs[b.0 as int];
    let r = if opcode == 0x33u32 { alu64(f3, f7, x, y) } else { alu32(f3, f7, x, y) };
    if let Some(v) = r {
        lemma_set_keeps_zero(m.regs, d.0 as int, v);
    }
}

/// One register-immediate word: the machine applies the operation that the
/// word selects to the source register and the word's immediate.
proof fn lemma_step_i(m: Machine, opcode: u32, d: Reg, f3: u32, a: Reg, imm: i32)
    requires
        regs_ok(m),
        opcode == 0x13u32 || opcode == 0x1bu32,
        0 < d.0 < 32,
        a.0 < 32,
        f3 < 8,
        -2048 <= imm <= 2047,
        0 <= m.pc,
        m.pc + 4 <= m.memory.len(),
        fetch(m.memory, m.pc) == enc_i(opcode, d, f3, a, imm),
    ensures
        ({
            let w = fetch(m.memory, m.pc);
            let x = m.regs[a.0 as int];
            let r = if opcode == 0x13u32 { alu_imm64(f3, w, x) } else { alu_imm32(f3, w, x) };
            step(m) == match r { Some(v) => Some(after(m, d, v, 1)), None => None::<Machine> }
        }),
        ((fetch(m.memory, m.pc) as i32) >> 20u32) == imm,
        sext_i(fetch(m.memory, m.pc)) == imm as i64,
{
    let w = fetch(m.memory, m.pc);
    lemma_decode_i(w, opcode, d.0, f3, a.0, imm);
    let x = m.regs[a.0 as int];
    let r = if opcode == 0x13u32 { alu_imm64(f3, w, x) } else { alu_imm32(f3, w, x) };
    if let Some(v) = r {
        lemma_set_keeps_zero(m.regs, d.0 as int, v);
    }
}

proof fn lemma_r64_word(m: Machine, inst: MInst)
    requires
        inst is Add || inst is Sub || inst is Mul || inst is Divu || inst is Remu || inst is Div || inst is Rem || inst is Sll || inst is Srl || inst is Sra || inst is Slt || inst is Sltu || inst is Xor || inst is Or || inst is And,
        regs_ok(m),
        alu_ok(inst),
        alu_effect(inst, m.regs) matches Some((d, _)) && d.0 != 0,
        0 <= m.pc,
        m.pc + 4 <= m.memory.len(),
        fetch(m.memory, m.pc) == word_for(inst, 0i32),
    ensures
        alu_effect(inst, m.regs) matches Some((d, v)) && step(m) == Some(after(m, d, v, 1)),
{
    match inst {
        MInst::Add(d, a, b) => { lemma_step_r(m, 0x33u32, d, 0u32, a, b, 0u32); },
        MInst::Sub(d, a, b) => { lemma_step_r(m, 0x33u32, d, 0u32, a, b, 32u32); },
        MInst::Mul(d, a, b) => { lemma_step_r(m, 0x33u32, d, 0u32, a, b, 1u32); },
        MInst::Divu(d, a, b) => { lemma_step_r(m, 0x33u32, d, 5u32, a, b, 1u32); },
        MInst::Remu(d, a, b) => { lemma_step_r(m, 0x33u32, d, 7u32, a, b, 1u32); },
        MInst::Div(d, a, b) => { lemma_step_r(m, 0x33u32, d, 4u32, a, b, 1u32); },
        MInst::Rem(d, a, b) => { lemma_step_r(m, 0x33u32, d, 6u32, a, b, 1u32); },
        MInst::Sll(d, a, b) => { lemma_step_r(m, 0x33u32, d, 1u32, a, b, 0u32); lemma_shift_amounts(m.regs[b.0 as int]); },
        MInst::Srl(d, a, b) => { lemma_step_r(m, 0x33u32, d, 5u32, a, b, 0u32); lemma_shift_amounts(m.regs[b.0 as int]); },
        MInst::Sra(d, a, b) => { lemma_step_r(m, 0x33u32, d, 5u32, a, b, 32u32); lemma_shift_amounts(m.regs[b.0 as int]); },
        MInst::Slt(d, a, b) => { lemma_step_r(m, 0x33u32, d, 2u32, a, b, 0u32); },
        MInst::Sltu(d, a, b) => { lemma_step_r(m, 0x33u32, d, 3u32, a, b, 0u32); },
        MInst::Xor(d, a, b) => { lemma_step_r(m, 0x33u32, d, 4u32, a, b, 0u32); },
        MInst::Or(d, a, b) => { lemma_step_r(m, 0x33u32, d, 6u32, a, b, 0u32); },
        MInst::And(d, a, b) => { lemma_step_r(m, 0x33u32, d, 7u32, a, b, 0u32); },
        _ => {},
    }
}

proof fn lemma_r32_word(m: Machine, inst: MInst)
    requires
        inst is Addw || inst is Subw || inst is Mulw || inst is Divw || inst is Divuw || inst is Remw || inst is Remuw || inst is Sllw || inst is Srlw || inst is Sraw,
        regs_ok(m),
        alu_ok(inst),
        alu_effect(inst, m.regs) matches Some((d, _)) && d.0 != 0,
        0 <= m.pc,
        m.pc + 4 <= m.memory.len(),
        fetch(m.memory, m.pc) == word_for(inst, 0i32),
    ensures
        alu_effect(inst, m.regs) matches Some((d, v)) && step(m) == Some(after(m, d, v, 1)),
{
    match inst {
        MInst::Addw(d, a, b) => {
            lemma_step_r(m, 0x3bu32, d, 0u32, a, b, 0u32);
            let x = m.regs[a.0 as int];
            let y = m.regs[b.0 as int];
            assert(alu32(0u32, 0u32, x, y) == Some((x as i32).wrapping_add(y as i32) as i64 as u64));
        },
        MInst::Subw(d, a, b) => {
            lemma_step_r(m, 0x3bu32, d, 0u32, a, b, 32u32);
            let x = m.regs[a.0 as int];
            let y = m.regs[b.0 as int];
            assert(alu32(0u32, 32u32, x, y) == Some((x as i32).wrapping_sub(y as i32) as i64 as u64));
        },
        MInst::Mulw(d, a, b) => {
            lemma_step_r(m, 0x3bu32, d, 0u32, a, b, 1u32);
            let x = m.regs[a.0 as int];
            let y = m.regs[b.0 as int];
            assert(alu32(0u32, 1u32, x, y) == Some((x as i32).wrapping_mul(y as i32) as i64 as u64));
        },
        MInst::Divw(d, a, b) => { lemma_step_r(m, 0x3bu32, d, 4u32, a, b, 1u32); lemma_shift_amounts(m.regs[a.0 as int]); lemma_shift_amounts(m.regs[b.0 as int]); },
        MInst::Divuw(d, a, b) => { lemma_step_r(m, 0x3bu32, d, 5u32, a, b, 1u32); lemma_shift_amounts(m.regs[a.0 as int]); lemma_shift_amounts(m.regs[b.0 as int]); },
        MInst::Remw(d, a, b) => { lemma_step_r(m, 0x3bu32, d, 6u32, a, b, 1u32); lemma_shift_amounts(m.regs[a.0 as int]); lemma_shift_amounts(m.regs[b.0 as int]); },
        MInst::Remuw(d, a, b) => { lemma_step_r(m, 0x3bu32, d, 7u32, a, b, 1u32); lemma_shift_amounts(m.regs[a.0 as int]); lemma_shift_amounts(m.regs[b.0 as int]); },
        MInst::Sllw(d, a, b) => {
            lemma_step_r(m, 0x3bu32, d, 1u32, a, b, 0u32); lemma_shift_amounts(m.regs[b.0 as int]);
            let x = m.regs[a.0 as int];
            let y = m.regs[b.0 as int];
            assert(alu32(1u32, 0u32, x, y) == Some(((x as i32) << ((y % 32) as u32)) as i64 as u64));
        },
        MInst::Srlw(d, a, b) => {
            lemma_step_r(m, 0x3bu32, d, 5u32, a, b, 0u32); lemma_shift_amounts(m.regs[b.0 as int]);
            let x = m.regs[a.0 as int];
            let y = m.regs[b.0 as int];
            lemma_shift_amounts(x);
            assert(alu32(5u32, 0u32, x, y) == Some(((x as u32) >> ((y % 32) as u32)) as i32 as i64 as u64));
        },
        MInst::Sraw(d, a, b) => {
            lemma_step_r(m, 0x3bu32, d, 5u32, a, b, 32u32); lemma_shift_amounts(m.regs[b.0 as int]);
            let x = m.regs[a.0 as int];
            let y = m.regs[b.0 as int];
            assert(alu32(5u32, 32u32, x, y) == Some(((x as i32) >> ((y % 32) as u32)) as i64 as u64));
        },
        _ => {},
    }
}

proof fn lemma_imm_word(m: Machine, inst: MInst)
    requires
        inst is Addi || inst is Xori || inst is Ori || inst is Andi || inst is Slti || inst is Sltiu || inst is Addiw,
        regs_ok(m),
        alu_ok(inst),
        alu_effect(inst, m.regs) matches Some((d, _)) && d.0 != 0,
        0 <= m.pc,
        m.pc + 4 <= m.memory.len(),
        fetch(m.memory, m.pc) == word_for(inst, 0i32),
    ensures
        alu_effect(inst, m.regs) matches Some((d, v)) && step(m) == Some(after(m, d, v, 1)),
{
    match inst {
        MInst::Addi(d, a, i) => { lemma_step_i(m, 0x13u32, d, 0u32, a, i); },
        MInst::Xori(d, a, i) => { lemma_step_i(m, 0x13u32, d, 4u32, a, i); },
        MInst::Ori(d, a, i) => { lemma_step_i(m, 0x13u32, d, 6u32, a, i); },
        MInst::Andi(d, a, i) => { lemma_step_i(m, 0x13u32, d, 7u32, a, i); },
        MInst::Slti(d, a, i) => { lemma_step_i(m, 0x13u32, d, 2u32, a, i); },
        MInst::Sltiu(d, a, i) => { lemma_step_i(m, 0x13u32, d, 3u32, a, i); },
        MInst::Addiw(d, a, i) => { lemma_step_i(m, 0x1bu32, d, 0u32, a, i); },
        _ => {},
    }
}

proof fn lemma_shift_word(m: Machine, inst: MInst)
    requires
        inst is Slli || inst is Srli || inst is Srai || inst is Slliw || inst is Srliw || inst is Sraiw,
        regs_ok(m),
        alu_ok(inst),
        alu_effect(inst, m.regs) matches Some((d, _)) && d.0 != 0,
        0 <= m.pc,
        m.pc + 4 <= m.memory.len(),
        fetch(m.memory, m.pc) == word_for(inst, 0i32),
    ensures
        alu_effect(inst, m.regs) matches Some((d, v)) && step(m) == Some(after(m, d, v, 1)),
{
    let w = fetch(m.memory, m.pc);
    match inst {
        MInst::Slli(d, a, sh) => {
            lemma_shift_imm(sh);
            lemma_step_i(m, 0x13u32, d, 1u32, a, (sh & 0x3Fu32) as i32);
            lemma_decode_shift(w, 0x13u32, d.0, 1u32, a.0, sh & 0x3Fu32);
            let x = m.regs[a.0 as int];
            assert(alu_imm64(1u32, w, x) == Some(x << sh));
        },
        MInst::Srli(d, a, sh) => {
            lemma_shift_imm(sh);
            lemma_step_i(m, 0x13u32, d, 5u32, a, (sh & 0x3Fu32) as i32);
            lemma_decode_shift(w, 0x13u32, d.0, 5u32, a.0, sh & 0x3Fu32);
            let x = m.regs[a.0 as int];
            assert(alu_imm64(5u32, w, x) == Some(x >> sh));
        },
        MInst::Srai(d, a, sh) => {
            lemma_shift_imm(sh);
            lemma_step_i(m, 0x13u32, d, 5u32, a, (0x400u32 | (sh & 0x3Fu32)) as i32);
            lemma_decode_shift(w, 0x13u32, d.0, 5u32, a.0, 0x400u32 | (sh & 0x3Fu32));
            let x = m.regs[a.0 as int];
            assert(alu_imm64(5u32, w, x) == Some(((x as i64) >> sh) as u64));
        },
        MInst::Slliw(d, a, sh) => {
            lemma_shift_imm(sh);
            lemma_step_i(m, 0x1bu32, d, 1u32, a, (sh & 0x1Fu32) as i32);
            lemma_decode_shift(w, 0x1bu32, d.0, 1u32, a.0, sh & 0x1Fu32);
            let x = m.regs[a.0 as int];
            assert(alu_imm32(1u32, w, x) == Some(((x as i32) << sh) as i64 as u64));
        },
        MInst::Srliw(d, a, sh) => {
            lemma_shift_imm(sh);
            lemma_step_i(m, 0x1bu32, d, 5u32, a, (sh & 0x1Fu32) as i32);
            lemma_decode_shift(w, 0x1bu32, d.0, 5u32, a.0, sh & 0x1Fu32);
            let x = m.regs[a.0 as int];
            lemma_shift_amounts(x);
            assert(alu_imm32(5u32, w, x) == Some(((x as u32) >> sh) as i32 as i64 as u64));
        },
        MInst::Sraiw(d, a, sh) => {
            lemma_shift_imm(sh);
            lemma_step_i(m, 0x1bu32, d, 5u32, a, (0x400u32 | (sh & 0x1Fu32)) as i32);
            lemma_decode_shift(w, 0x1bu32, d.0, 5u32, a.0, 0x400u32 | (sh & 0x1Fu32));
            let x = m.regs[a.0 as int];
            assert(alu_imm32(5u32, w, x) == Some(((x as i32) >> sh) as i64 as u64));
        },
        _ => {},
    }
}

/// Executing the word emitted for an arithmetic or logic instruction writes,
/// into its destination, the value that the instruction set defines for it,
/// and moves on to the next word; no other register changes.
pub proof fn lemma_alu_word(m: Machine, inst: MInst)
    requires
        regs_ok(m),
        alu_ok(inst),
        alu_effect(inst, m.regs) matches Some((d, _)) && d.0 != 0,
        0 <= m.pc,
        m.pc + 4 <= m.memory.len(),
        fetch(m.memory, m.pc) == word_for(inst, 0i32),
    ensures
        alu_effect(inst, m.regs) matches Some((d, v)) && step(m) == Some(after(m, d, v, 1)),
{
    match inst {
        MInst::Addw(..) | MInst::Subw(..) | MInst::Mulw(..) | MInst::Divw(..) | MInst::Divuw(..)
        | MInst::Remw(..) | MInst::Remuw(..) | MInst::Sllw(..) | MInst::Srlw(..)
        | MInst::Sraw(..) => lemma_r32_word(m, inst),
        MInst::Addi(..) | MInst::Xori(..) | MInst::Ori(..) | MInst::Andi(..) | MInst::Slti(..)
        | MInst::Sltiu(..) | MInst::Addiw(..) => lemma_imm_word(m, inst),
        MInst::Slli(..) | MInst::Srli(..) | MInst::Srai(..) | MInst::Slliw(..) | MInst::Srliw(..)
        | MInst::Sraiw(..) => lemma_shift_word(m, inst),
        _ => lemma_r64_word(m, inst),
    }
}

/// What a load reads: its destination, base register, offset, width in
/// bytes, and whether it sign-extends what it read.
pub open spec fn load_shape(inst: MInst) -> Option<(Reg, Reg, i32, int, bool)> {
    match inst {
        MInst::Lb(d, base, off) => Some((d, base, off, 1, true)),
        MInst::Lbu(d, base, off) => Some((d, base, off, 1, false)),
        MInst::Lh(d, base, off) => Some((d, base, off, 2, true)),
        MInst::Lhu(d, base, off) => Some((d, base, off, 2, false)),
        MInst::Lw(d, base, off) => Some((d, base, off, 4, true)),
        MInst::Lwu(d, base, off) => Some((d, base, off, 4, false)),
        MInst::Ld(d, base, off) => Some((d, base, off, 8, true)),
        _ => None,
    }
}

/// The little-endian value of the `size` bytes at `a`, sign- or
/// zero-extended to 64 bits.
pub open spec fn loaded(mem: Seq<u8>, a: int, size: int, signed: bool) -> u64 {
    if size == 1 {
        if signed { mem[a] as i8 as i64 as u64 } else { mem[a] as u64 }
    } else if size == 2 {
        if signed { le16(mem, a) as i16 as i64 as u64 } else { le16(mem, a) as u64 }
    } else if size == 4 {
        if signed { le32(mem, a) as i32 as i64 as u64 } else { le32(mem, a) as u64 }
    } else {
        le64(mem, a)
    }
}

/// The address that a load or store with this base value and offset reaches.
pub open spec fn address(base: u64, off: i32) -> int {
    (base.wrapping_add(off as i64 as u64) as usize) as int
}

/// Executing the word emitted for a load reads, at the base register plus
/// the offset, as many bytes as the load is wide, extends them as the load
/// says, and puts them in the destination; memory first grows to cover the
/// access, and the machine faults only where it cannot.
pub proof fn lemma_load_word(m: Machine, inst: MInst)
    requires
        regs_ok(m),
        load_shape(inst) matches Some((d, base, off, _, _)) && 0 < d.0 < 32 && base.0 < 32 && -2048 <= off <= 2047,
        0 <= m.pc,
        m.pc + 4 <= m.memory.len(),
        fetch(m.memory, m.pc) == word_for(inst, 0i32),
    ensures
        load_shape(inst) matches Some((d, base, off, size, signed)) && step(m) == (match grow(m.memory, address(m.regs[base.0 as int], off), size) {
            Some(mem) => Some(Machine {
                regs: m.regs.update(d.0 as int, loaded(mem, address(m.regs[base.0 as int], off), size, signed)),
                pc: m.pc + 4,
                memory: mem,
                ..m
            }),
            None => None,
        }),
{
    let w = fetch(m.memory, m.pc);
    let (d, base, off, size, signed) = load_shape(inst).unwrap();
    let f3: u32 = match inst {
        MInst::Lb(..) => 0u32,
        MInst::Lh(..) => 1u32,
        MInst::Lw(..) => 2u32,
        MInst::Ld(..) => 3u32,
        MInst::Lbu(..) => 4u32,
        MInst::Lhu(..) => 5u32,
        _ => 6u32,
    };
    lemma_decode_i(w, 0x3u32, d.0, f3, base.0, off);
    let addr = address(m.regs[base.0 as int], off);
    if let Some(mem) = grow(m.memory, addr, size) {
        lemma_set_keeps_zero(m.regs, d.0 as int, loaded(mem, addr, size, signed));
    }
}

/// What a store writes: its base register, the register whose value it
/// stores, the offset, and its width in bytes.
pub open spec fn store_shape(inst: MInst) -> Option<(Reg, Reg, i32, int)> {
    match inst {
        MInst::Sb(base, src, off) => Some((base, src, off, 1)),
        MInst::Sh(base, src, off) => Some((base, src, off, 2)),
        MInst::Sw(base, src, off) => Some((base, src, off, 4)),
        MInst::Sd(base, src, off) => Some((base, src, off, 8)),
        _ => None,
    }
}

proof fn lemma_decode_s(w: u32, f3: u32, rs1: u8, rs2: u8, imm: i32)
    requires
        w == 0x23u32 | (((imm as u32) & 0x1Fu32) << 7u32) | (f3 << 12u32) | ((rs1 as u32) << 15u32)
            | ((rs2 as u32) << 20u32) | ((((imm as u32) >> 5u32) & 0x7Fu32) << 25u32),
        f3 < 8,
        rs1 < 32,
        rs2 < 32,
        -2048 <= imm <= 2047,
    ensures
        w & 0x7Fu32 == 0x23u32,
        (w >> 12u32) & 0x7u32 == f3,
        ((w >> 15u32) & 0x1Fu32) == rs1 as u32,
        ((w >> 20u32) & 0x1Fu32) == rs2 as u32,
        sext_s(w) == imm as i64,
{
    assert(w & 0x7Fu32 == 0x23u32 && (w >> 12u32) & 0x7u32 == f3 && ((w >> 15u32) & 0x1Fu32) == rs1 as u32
        && ((w >> 20u32) & 0x1Fu32) == rs2 as u32
        && (((((w >> 7u32) & 0x1Fu32) | (((w >> 25u32) & 0x7Fu32) << 5u32)) as i32) << 20u32 >> 20u32) == imm) by (bit_vector)
        requires
            w == 0x23u32 | (((imm as u32) & 0x1Fu32) << 7u32) | (f3 << 12u32) | ((rs1 as u32) << 15u32)
                | ((rs2 as u32) << 20u32) | ((((imm as u32) >> 5u32) & 0x7Fu32) << 25u32),
            f3 < 8, rs1 < 32, rs2 < 32, -2048 <= imm <= 2047;
}

/// Executing the word emitted for a store writes the low bytes of the
/// stored register, as many as the store is wide, little-endian at the base
/// register plus the offset; memory first grows to cover the access, and
/// no register changes.
pub proof fn lemma_store_word(m: Machine, inst: MInst)
    requires
        regs_ok(m),
        store_shape(inst) matches Some((base, src, off, _)) && base.0 < 32 && src.0 < 32 && -2048 <= off <= 2047,
        0 <= m.pc,
        m.pc + 4 <= m.memory.len(),
        fetch(m.memory, m.pc) == word_for(inst, 0i32),
    ensures
        store_shape(inst) matches Some((base, src, off, size)) && step(m) == (match grow(m.memory, address(m.regs[base.0 as int], off), size) {
            Some(mem) => Some(Machine {
                pc: m.pc + 4,
                memory: store_bytes(mem, address(m.regs[base.0 as int], off), m.regs[src.0 as int], size),
                ..m
            }),
            None => None,
        }),
{
    let w = fetch(m.memory, m.pc);
    let (base, src, off, size) = store_shape(inst).unwrap();
    let f3: u32 = match inst {
        MInst::Sb(..) => 0u32,
        MInst::Sh(..) => 1u32,
        MInst::Sw(..) => 2u32,
        _ => 3u32,
    };
    lemma_decode_s(w, f3, base.0, src.0, off);
    assert(m.regs.update(0, 0u64) =~= m.regs);
}

pub(crate) proof fn lemma_signed_less(x: u64, y: u64)
    ensures
        ((x as i64) < (y as i64)) == signed_less(x, y),
{
    assert(((x as i64) < (y as i64)) == (if (x >= 0x8000_0000_0000_0000u64) != (y >= 0x8000_0000_0000_0000u64) {
        x >= 0x8000_0000_0000_0000u64
    } else {
        x < y
    })) by (bit_vector);
}

/// Which two registers a conditional branch compares.
pub open spec fn branch_shape(inst: MInst) -> Option<(Reg, Reg)> {
    match inst {
        MInst::Beq(a, b, _) => Some((a, b)),
        MInst::Bne(a, b, _) => Some((a, b)),
        MInst::Blt(a, b, _) => Some((a, b)),
        MInst::Bge(a, b, _) => Some((a, b)),
        MInst::Bltu(a, b, _) => Some((a, b)),
        MInst::Bgeu(a, b, _) => Some((a, b)),
        _ => None,
    }
}

/// Whether a conditional branch is taken, given the values of its two
/// registers: on equality, inequality, or the signed or unsigned order.
pub open spec fn branch_holds(inst: MInst, x: u64, y: u64) -> bool {
    match inst {
        MInst::Beq(..) => x == y,
        MInst::Bne(..) => x != y,
        MInst::Blt(..) => signed_less(x, y),
        MInst::Bge(..) => !signed_less(x, y),
        MInst::Bltu(..) => x < y,
        MInst::Bgeu(..) => x >= y,
        _ => false,
    }
}

proof fn lemma_decode_b(w: u32, f3: u32, rs1: u8, rs2: u8, imm: i32)
    requires
        w == 0x63u32 | (((((imm as u32) >> 11u32) & 1u32) << 7u32) | ((((imm as u32) >> 1u32) & 0xFu32) << 8u32)
            | (f3 << 12u32) | ((rs1 as u32) << 15u32) | ((rs2 as u32) << 20u32)
            | ((((imm as u32) >> 5u32) & 0x3Fu32) << 25u32) | ((((imm as u32) >> 12u32) & 1u32) << 31u32)),
        f3 < 8,
        rs1 < 32,
        rs2 < 32,
        -4096 <= imm <= 4094,
        imm & 1i32 == 0,
    ensures
        w & 0x7Fu32 == 0x63u32,
        (w >> 12u32) & 0x7u32 == f3,
        ((w >> 15u32) & 0x1Fu32) == rs1 as u32,
        ((w >> 20u32) & 0x1Fu32) == rs2 as u32,
        sext_b(w) == imm as i64,
{
    assert(w & 0x7Fu32 == 0x63u32 && (w >> 12u32) & 0x7u32 == f3 && ((w >> 15u32) & 0x1Fu32) == rs1 as u32
        && ((w >> 20u32) & 0x1Fu32) == rs2 as u32
        && ((((((w >> 31u32) & 1u32) << 12u32) | (((w >> 7u32) & 1u32) << 11u32)
            | (((w >> 25u32) & 0x3Fu32) << 5u32) | (((w >> 8u32) & 0xFu32) << 1u32)) as i32) << 19u32 >> 19u32) == imm) by (bit_vector)
        requires
            w == 0x63u32 | (((((imm as u32) >> 11u32) & 1u32) << 7u32) | ((((imm as u32) >> 1u32) & 0xFu32) << 8u32)
                | (f3 << 12u32) | ((rs1 as u32) << 15u32) | ((rs2 as u32) << 20u32)
                | ((((imm as u32) >> 5u32) & 0x3Fu32) << 25u32) | ((((imm as u32) >> 12u32) & 1u32) << 31u32)),
            f3 < 8, rs1 < 32, rs2 < 32, -4096 <= imm <= 4094, imm & 1i32 == 0;
}

/// Executing the word emitted for a conditional branch, with the offset to
/// its target, moves the program counter by that offset when the branch's
/// condition holds of its two registers, and on to the next word when it
/// does not; registers and memory stay as they were.
pub proof fn lemma_branch_word(m: Machine, inst: MInst, offset: i32)
    requires
        regs_ok(m),
        branch_shape(inst) matches Some((a, b)) && a.0 < 32 && b.0 < 32,
        -4096 <= offset <= 4094,
        offset % 2 == 0,
        0 <= m.pc,
        m.pc + 4 <= m.memory.len(),
        m.pc + 4096 <= i64::MAX,
        0 <= m.pc + offset <= usize::MAX,
        fetch(m.memory, m.pc) == word_for(inst, offset),
    ensures
        branch_shape(inst) matches Some((a, b)) && step(m) == Some(Machine {
            pc: if branch_holds(inst, m.regs[a.0 as int], m.regs[b.0 as int]) { m.pc + offset } else { m.pc + 4 },
            ..m
        }),
{
    let w = fetch(m.memory, m.pc);
    let (a, b) = branch_shape(inst).unwrap();
    let f3: u32 = match inst {
        MInst::Beq(..) => 0u32,
        MInst::Bne(..) => 1u32,
        MInst::Blt(..) => 4u32,
        MInst::Bge(..) => 5u32,
        MInst::Bltu(..) => 6u32,
        _ => 7u32,
    };
    assert(offset & 1i32 == 0) by (bit_vector) requires offset % 2 == 0;
    lemma_decode_b(w, f3, a.0, b.0, offset);
    lemma_signed_less(m.regs[a.0 as int], m.regs[b.0 as int]);
    assert(((m.pc as i64).wrapping_add(offset as i64) as usize) as int == m.pc + offset);
    assert(m.regs.update(0, 0u64) =~= m.regs);
}

proof fn lemma_decode_j(w: u32, rd: u8, imm: i32)
    requires
        w == 0x6fu32 | ((rd as u32) << 7u32) | ((((imm as u32) >> 12u32) & 0xFFu32) << 12u32)
            | ((((imm as u32) >> 11u32) & 1u32) << 20u32) | ((((imm as u32) >> 1u32) & 0x3FFu32) << 21u32)
            | ((((imm as u32) >> 20u32) & 1u32) << 31u32),
        rd < 32,
        -0x10_0000 <= imm <= 0xF_FFFE,
        imm & 1i32 == 0,
    ensures
        w & 0x7Fu32 == 0x6fu32,
        ((w >> 7u32) & 0x1Fu32) == rd as u32,
        sext_j(w) == imm as i64,
{
    assert(w & 0x7Fu32 == 0x6fu32 && ((w >> 7u32) & 0x1Fu32) == rd as u32
        && ((((((w >> 31u32) & 1u32) << 20u32) | (((w >> 12u32) & 0xFFu32) << 12u32)
            | (((w >> 20u32) & 1u32) << 11u32) | (((w >> 21u32) & 0x3FFu32) << 1u32)) as i32) << 11u32 >> 11u32) == imm) by (bit_vector)
        requires
            w == 0x6fu32 | ((rd as u32) << 7u32) | ((((imm as u32) >> 12u32) & 0xFFu32) << 12u32)
                | ((((imm as u32) >> 11u32) & 1u32) << 20u32) | ((((imm as u32) >> 1u32) & 0x3FFu32) << 21u32)
                | ((((imm as u32) >> 20u32) & 1u32) << 31u32),
            rd < 32, -0x10_0000 <= imm <= 0xF_FFFE, imm & 1i32 == 0;
}

/// Executing the word emitted for `jal`, with the offset to its target,
/// moves the program counter by that offset and puts the address of the
/// next word in the link register, unless that is `x0`; nothing else changes.
pub proof fn lemma_jal_word(m: Machine, rd: Reg, target: Block, offset: i32)
    requires
        regs_ok(m),
        rd.0 < 32,
        -0x10_0000 <= offset <= 0xF_FFFE,
        offset % 2 == 0,
        0 <= m.pc,
        m.pc + 4 <= m.memory.len(),
        m.pc + 0x10_0000 <= i64::MAX,
        0 <= m.pc + offset <= usize::MAX,
        fetch(m.memory, m.pc) == word_for(MInst::Jal(rd, target), offset),
    ensures
        step(m) == Some(Machine {
            regs: if rd.0 != 0 { m.regs.update(rd.0 as int, (m.pc + 4) as u64) } else { m.regs },
            pc: m.pc + offset,
            ..m
        }),
{
    let w = fetch(m.memory, m.pc);
    assert(offset & 1i32 == 0) by (bit_vector) requires offset % 2 == 0;
    lemma_decode_j(w, rd.0, offset);
    assert(((m.pc as i64).wrapping_add(offset as i64) as usize) as int == m.pc + offset);
    if rd.0 != 0 {
        lemma_set_keeps_zero(m.regs, rd.0 as int, (m.pc + 4) as u64);
    } else {
        assert(m.regs.update(0, 0u64) =~= m.regs);
    }
}

/// Executing the word emitted for `jalr` jumps to the base register plus
/// the offset, with the lowest bit cleared, and puts the address of the next
/// word in the link register, unless that is `x0`; nothing else changes.
pub proof fn lemma_jalr_word(m: Machine, rd: Reg, base: Reg, off: i32)
    requires
        regs_ok(m),
        rd.0 < 32,
        base.0 < 32,
        -2048 <= off <= 2047,
        0 <= m.pc,
        m.pc + 4 <= m.memory.len(),
        fetch(m.memory, m.pc) == word_for(MInst::Jalr(rd, base, off), 0i32),
    ensures
        step(m) == Some(Machine {
            regs: if rd.0 != 0 { m.regs.update(rd.0 as int, (m.pc + 4) as u64) } else { m.regs },
            pc: ((m.regs[base.0 as int].wrapping_add(off as i64 as u64) & !1u64) as usize) as int,
            ..m
        }),
{
    let w = fetch(m.memory, m.pc);
    lemma_decode_i(w, 0x67u32, rd.0, 0u32, base.0, off);
    if rd.0 != 0 {
        lemma_set_keeps_zero(m.regs, rd.0 as int, (m.pc + 4) as u64);
    } else {
        assert(m.regs.update(0, 0u64) =~= m.regs);
    }
}

/// The value that `lui` gives: the immediate's low 20 bits as the upper
/// bits of a 32-bit word, sign-extended to 64 bits.
pub open spec fn upper_value(imm: i32) -> i64 {
    ((((imm as u32) & 0xFFFFFu32) << 12u32) as i32) as i64
}

/// Executing the word emitted for `lui` puts the upper value of its
/// immediate in the destination, and the word for `auipc` that value added
/// to the address of the word itself; nothing else changes.
pub proof fn lemma_upper_word(m: Machine, inst: MInst)
    requires
        regs_ok(m),
        (inst matches MInst::Lui(d, _) && 0 < d.0 < 32) || (inst matches MInst::Auipc(d, _) && 0 < d.0 < 32),
        0 <= m.pc <= i64::MAX,
        m.pc + 4 <= m.memory.len(),
        fetch(m.memory, m.pc) == word_for(inst, 0i32),
    ensures
        inst matches MInst::Lui(d, imm) ==> step(m) == Some(after(m, d, upper_value(imm) as u64, 1)),
        inst matches MInst::Auipc(d, imm) ==> step(m) == Some(after(m, d, (m.pc as i64).wrapping_add(upper_value(imm)) as u64, 1)),
{
    let w = fetch(m.memory, m.pc);
    match inst {
        MInst::Lui(d, imm) => {
            lemma_decode_u(w, 0x37u32, d.0, imm);
            lemma_set_keeps_zero(m.regs, d.0 as int, upper_value(imm) as u64);
        },
        MInst::Auipc(d, imm) => {
            lemma_decode_u(w, 0x17u32, d.0, imm);
            lemma_set_keeps_zero(m.regs, d.0 as int, (m.pc as i64).wrapping_add(upper_value(imm)) as u64);
        },
        _ => {},
    }
}

} // verus!
