//! What the machine does with the instruction sequence that loads a 64-bit
//! constant: run on the interpreter, it puts the constant in its register
//! and changes nothing else.
use vstd::prelude::*;
use crate::emit::{abs_i64, fits_i12, fits_i32, lemma_upper_part, li64_seq, low12, upper_part, word_for};
use crate::riscv::{MInst, Reg, ZERO};
use crate::vm::{fetch, step, Machine};

verus! {

/// The machine after `n` instructions, or `None` when one of them faults.
pub open spec fn steps(m: Machine, n: nat) -> Option<Machine>
    decreases n,
{
    if n == 0 {
        Some(m)
    } else {
        match step(m) {
            Some(m2) => steps(m2, (n - 1) as nat),
            None => None,
        }
    }
}

/// The words of instructions that hold no branch.
pub open spec fn plain_words(code: Seq<MInst>) -> Seq<u32> {
    Seq::new(code.len(), |k: int| word_for(code[k], 0i32))
}

/// The words `ws` stand in memory from `pc` on, one after the other.
pub open spec fn code_at(mem: Seq<u8>, pc: int, ws: Seq<u32>) -> bool {
    &&& 0 <= pc
    &&& pc + 4 * ws.len() <= mem.len()
    &&& forall|k: int| 0 <= k < ws.len() ==> fetch(mem, pc + 4 * k) == #[trigger] ws[k]
}

/// A machine with its 32 registers and `x0` at zero.
pub open spec fn regs_ok(m: Machine) -> bool {
    m.regs.len() == 32 && m.regs[0] == 0
}

/// The machine with register `rd` set to `v` and the program counter moved on
/// by `n` instructions.
pub open spec fn after(m: Machine, rd: Reg, v: u64, n: nat) -> Machine {
    Machine { regs: m.regs.update(rd.0 as int, v), pc: m.pc + 4 * n, ..m }
}

pub(crate) proof fn lemma_decode_i(w: u32, opcode: u32, rd: u8, f3: u32, rs: u8, imm: i32)
    requires
        w == opcode | ((rd as u32) << 7u32) | (f3 << 12u32) | ((rs as u32) << 15u32) | (((imm as u32) & 0xFFFu32) << 20u32),
        opcode < 128,
        rd < 32,
        f3 < 8,
        rs < 32,
        -2048 <= imm <= 2047,
    ensures
        w & 0x7Fu32 == opcode,
        ((w >> 7u32) & 0x1Fu32) == rd as u32,
        (w >> 12u32) & 0x7u32 == f3,
        ((w >> 15u32) & 0x1Fu32) == rs as u32,
        ((w as i32) >> 20u32) == imm,
        (w >> 20u32) & 0x3Fu32 == (imm as u32) & 0x3Fu32,
{
    assert(w & 0x7Fu32 == opcode && ((w >> 7u32) & 0x1Fu32) == rd as u32 && (w >> 12u32) & 0x7u32 == f3
        && ((w >> 15u32) & 0x1Fu32) == rs as u32 && ((w as i32) >> 20u32) == imm
        && (w >> 20u32) & 0x3Fu32 == (imm as u32) & 0x3Fu32) by (bit_vector)
        requires
            w == opcode | ((rd as u32) << 7u32) | (f3 << 12u32) | ((rs as u32) << 15u32) | (((imm as u32) & 0xFFFu32) << 20u32),
            opcode < 128, rd < 32, f3 < 8, rs < 32, -2048 <= imm <= 2047;
}

pub(crate) proof fn lemma_decode_u(w: u32, opcode: u32, rd: u8, imm: i32)
    requires
        w == opcode | ((rd as u32) << 7u32) | (((imm as u32) & 0xFFFFFu32) << 12u32),
        opcode < 128,
        rd < 32,
    ensures
        w & 0x7Fu32 == opcode,
        ((w >> 7u32) & 0x1Fu32) == rd as u32,
        w & 0xFFFFF000u32 == ((imm as u32) & 0xFFFFFu32) << 12u32,
{
    assert(w & 0x7Fu32 == opcode && ((w >> 7u32) & 0x1Fu32) == rd as u32
        && w & 0xFFFFF000u32 == ((imm as u32) & 0xFFFFFu32) << 12u32) by (bit_vector)
        requires
            w == opcode | ((rd as u32) << 7u32) | (((imm as u32) & 0xFFFFFu32) << 12u32),
            opcode < 128,
            rd < 32;
}

/// Setting a register other than `x0` and then clearing `x0` sets the register.
pub(crate) proof fn lemma_set_keeps_zero(regs: Seq<u64>, rd: int, v: u64)
    requires
        regs.len() == 32,
        regs[0] == 0,
        0 < rd < 32,
    ensures
        regs.update(rd, v).update(0, 0u64) == regs.update(rd, v),
{
    assert(regs.update(rd, v).update(0, 0u64) =~= regs.update(rd, v));
}

/// One `addi`: `rd` becomes `rs` plus the immediate.
proof fn lemma_step_addi(m: Machine, rd: Reg, rs: Reg, imm: i32)
    requires
        regs_ok(m),
        0 < rd.0 < 32,
        rs.0 < 32,
        -2048 <= imm <= 2047,
        0 <= m.pc,
        m.pc + 4 <= m.memory.len(),
        fetch(m.memory, m.pc) == word_for(MInst::Addi(rd, rs, imm), 0i32),
    ensures
        step(m) == Some(after(m, rd, m.regs[rs.0 as int].wrapping_add(imm as i64 as u64), 1)),
{
    let w = fetch(m.memory, m.pc);
    lemma_decode_i(w, 0x13u32, rd.0, 0u32, rs.0, imm);
    lemma_set_keeps_zero(m.regs, rd.0 as int, m.regs[rs.0 as int].wrapping_add(imm as i64 as u64));
}

/// One `addiw`: `rd` becomes the 32-bit sum of `rs` and the immediate, sign-extended.
proof fn lemma_step_addiw(m: Machine, rd: Reg, rs: Reg, imm: i32)
    requires
        regs_ok(m),
        0 < rd.0 < 32,
        rs.0 < 32,
        -2048 <= imm <= 2047,
        0 <= m.pc,
        m.pc + 4 <= m.memory.len(),
        fetch(m.memory, m.pc) == word_for(MInst::Addiw(rd, rs, imm), 0i32),
    ensures
        step(m) == Some(after(m, rd, (m.regs[rs.0 as int] as i32).wrapping_add(imm) as i64 as u64, 1)),
{
    let w = fetch(m.memory, m.pc);
    lemma_decode_i(w, 0x1bu32, rd.0, 0u32, rs.0, imm);
    lemma_set_keeps_zero(m.regs, rd.0 as int, (m.regs[rs.0 as int] as i32).wrapping_add(imm) as i64 as u64);
}

/// One `slli` by 12: `rd` becomes `rs` shifted left by 12 bits.
proof fn lemma_step_slli12(m: Machine, rd: Reg, rs: Reg)
    requires
        regs_ok(m),
        0 < rd.0 < 32,
        rs.0 < 32,
        0 <= m.pc,
        m.pc + 4 <= m.memory.len(),
        fetch(m.memory, m.pc) == word_for(MInst::Slli(rd, rs, 12u32), 0i32),
    ensures
        step(m) == Some(after(m, rd, m.regs[rs.0 as int] << 12u32, 1)),
{
    let w = fetch(m.memory, m.pc);
    assert((12u32 & 0x3Fu32) as i32 == 12i32) by (bit_vector);
    lemma_decode_i(w, 0x13u32, rd.0, 1u32, rs.0, 12i32);
    assert((12i32 as u32) & 0x3Fu32 == 12u32) by (bit_vector);
    lemma_set_keeps_zero(m.regs, rd.0 as int, m.regs[rs.0 as int] << 12u32);
}

/// One `lui`: `rd` becomes the immediate shifted left by 12 bits, sign-extended from 32 bits.
proof fn lemma_step_lui(m: Machine, rd: Reg, imm: i32)
    requires
        regs_ok(m),
        0 < rd.0 < 32,
        0 <= m.pc,
        m.pc + 4 <= m.memory.len(),
        fetch(m.memory, m.pc) == word_for(MInst::Lui(rd, imm), 0i32),
    ensures
        step(m) == Some(after(m, rd, ((((imm as u32) & 0xFFFFFu32) << 12u32) as i32) as i64 as u64, 1)),
{
    let w = fetch(m.memory, m.pc);
    lemma_decode_u(w, 0x37u32, rd.0, imm);
    lemma_set_keeps_zero(m.regs, rd.0 as int, ((((imm as u32) & 0xFFFFFu32) << 12u32) as i32) as i64 as u64);
}

pub(crate) proof fn lemma_wrap_i32(x: i32, y: i32)
    ensures
        x.wrapping_add(y) == (x + y) as i32,
{
    if x + y > i32::MAX {
        assert(x + y > i32::MAX ==> (x + y - 0x1_0000_0000) as i32 == (x + y) as i32) by (bit_vector);
    } else if x + y < i32::MIN {
        assert(x + y < i32::MIN ==> (x + y + 0x1_0000_0000) as i32 == (x + y) as i32) by (bit_vector);
    }
}

pub(crate) proof fn lemma_wrap_u64(x: u64, y: u64)
    ensures
        x.wrapping_add(y) == (x + y) as u64,
{
    if x + y > u64::MAX {
        assert(x + y > u64::MAX ==> (x + y - 0x1_0000_0000_0000_0000) as u64 == (x + y) as u64) by (bit_vector);
    }
}

/// `lui` and `addiw` of the two parts of a 32-bit value give the value.
proof fn lemma_value_32(imm: i64)
    requires
        fits_i32(imm),
        !fits_i12(imm),
    ensures
        ({
            let lo = low12(imm);
            let hi = ((imm - lo) as i64) >> 12u64;
            let lui = ((((hi as i32 as u32) & 0xFFFFFu32) << 12u32) as i32) as i64 as u64;
            &&& -2048 <= lo <= 2047
            &&& lo == 0 ==> lui == imm as u64
            &&& lo != 0 ==> ((lui as i32) + (lo as i32)) as i32 as i64 as u64 == imm as u64
        }),
{
    assert(-2147483648i64 <= imm <= 2147483647i64 ==> ({
        let lo = (((imm & 0xFFFi64) ^ 0x800i64) - 0x800i64) as i64;
        let hi = ((imm - lo) as i64) >> 12u64;
        let lui = ((((hi as i32 as u32) & 0xFFFFFu32) << 12u32) as i32) as i64 as u64;
        &&& -2048 <= lo <= 2047
        &&& lo == 0 ==> lui == imm as u64
        &&& lo != 0 ==> ((lui as i32) + (lo as i32)) as i32 as i64 as u64 == imm as u64
    })) by (bit_vector);
}

/// Shifting the upper part left by 12 and adding the low 12 bits gives the value.
proof fn lemma_value_64(imm: i64)
    requires
        !fits_i32(imm),
    ensures
        ({
            let lo = low12(imm);
            let shifted = (upper_part(imm) as u64) << 12u32;
            &&& lo == 0 ==> shifted == imm as u64
            &&& lo != 0 ==> (shifted + (lo as i32 as i64 as u64)) as u64 == imm as u64
        }),
{
    assert(({
        let lo = (((imm & 0xFFFi64) ^ 0x800i64) - 0x800i64) as i64;
        let shifted = ((((imm - lo) as i64) >> 12u64) as u64) << 12u32;
        &&& lo == 0 ==> shifted == imm as u64
        &&& lo != 0 ==> (shifted + (lo as i32 as i64 as u64)) as u64 == imm as u64
    })) by (bit_vector);
}

pub(crate) proof fn lemma_steps_split(m: Machine, a: nat, b: nat)
    ensures
        steps(m, a + b) == (match steps(m, a) {
            Some(m1) => steps(m1, b),
            None => None,
        }),
    decreases a,
{
    if a > 0 {
        match step(m) {
            Some(m2) => {
                lemma_steps_split(m2, (a - 1) as nat, b);
                assert((a + b - 1) as nat == ((a - 1) as nat + b) as nat);
            },
            None => {},
        }
    }
}

proof fn lemma_code_split(mem: Seq<u8>, pc: int, s1: Seq<MInst>, s2: Seq<MInst>)
    requires
        code_at(mem, pc, plain_words(s1 + s2)),
    ensures
        code_at(mem, pc, plain_words(s1)),
        code_at(mem, pc + 4 * s1.len(), plain_words(s2)),
{
    let w = plain_words(s1 + s2);
    assert forall|k: int| 0 <= k < s1.len() implies fetch(mem, pc + 4 * k) == #[trigger] plain_words(s1)[k] by {
        assert(w[k] == plain_words(s1)[k]);
    }
    assert forall|k: int| 0 <= k < s2.len() implies fetch(mem, pc + 4 * s1.len() + 4 * k) == #[trigger] plain_words(s2)[k] by {
        assert(w[s1.len() + k] == plain_words(s2)[k]);
        assert(pc + 4 * (s1.len() + k) == pc + 4 * s1.len() + 4 * k);
    }
}

pub(crate) proof fn lemma_after_after(m: Machine, rd: Reg, v1: u64, a: nat, v2: u64, b: nat)
    requires
        rd.0 < 32,
        m.regs.len() == 32,
    ensures
        after(after(m, rd, v1, a), rd, v2, b) == after(m, rd, v2, a + b),
{
    assert(m.regs.update(rd.0 as int, v1).update(rd.0 as int, v2) =~= m.regs.update(rd.0 as int, v2));
}

/// The instruction sequence that loads a 64-bit integer does so: run from a
/// machine whose memory holds its words at the program counter, it sets the
/// register to the integer, leaves every other register and the memory as
/// they were, and ends just past the sequence. This holds for every `i64`.
pub proof fn lemma_li64_loads(m: Machine, rd: Reg, imm: i64)
    requires
        regs_ok(m),
        0 < rd.0 < 32,
        code_at(m.memory, m.pc, plain_words(li64_seq(rd, imm))),
    ensures
        steps(m, li64_seq(rd, imm).len()) == Some(after(m, rd, imm as u64, li64_seq(rd, imm).len())),
    decreases abs_i64(imm),
{
    let seq = li64_seq(rd, imm);
    let w = plain_words(seq);
    if fits_i12(imm) {
        assert(w[0] == word_for(MInst::Addi(rd, Reg(ZERO), imm as i32), 0i32));
        assert(fetch(m.memory, m.pc + 4 * 0) == w[0]);
        lemma_step_addi(m, rd, Reg(ZERO), imm as i32);
        lemma_wrap_u64(m.regs[0], imm as i32 as i64 as u64);
        assert(steps(after(m, rd, imm as u64, 1), 0) == Some(after(m, rd, imm as u64, 1)));
    } else if fits_i32(imm) {
        lemma_value_32(imm);
        let lo = low12(imm);
        let hi = ((imm - lo) as i64) >> 12u64;
        let lui = ((((hi as i32 as u32) & 0xFFFFFu32) << 12u32) as i32) as i64 as u64;
        assert(w[0] == word_for(MInst::Lui(rd, hi as i32), 0i32));
        assert(fetch(m.memory, m.pc + 4 * 0) == w[0]);
        lemma_step_lui(m, rd, hi as i32);
        let m1 = after(m, rd, lui, 1);
        if lo == 0 {
            assert(steps(m1, 0) == Some(m1));
        } else {
            assert(w[1] == word_for(MInst::Addiw(rd, rd, lo as i32), 0i32));
            assert(fetch(m.memory, m.pc + 4 * 1) == w[1]);
            lemma_step_addiw(m1, rd, rd, lo as i32);
            lemma_wrap_i32(lui as i32, lo as i32);
            let v2 = (lui as i32).wrapping_add(lo as i32) as i64 as u64;
            assert(v2 == imm as u64);
            lemma_after_after(m, rd, lui, 1, v2, 1);
            assert(steps(after(m1, rd, v2, 1), 0) == Some(after(m1, rd, v2, 1)));
            assert(steps(m1, 1) == Some(after(m1, rd, v2, 1)));
        }
    } else {
        lemma_upper_part(imm);
        lemma_value_64(imm);
        let up = upper_part(imm);
        let lo = low12(imm);
        let first = li64_seq(rd, up);
        let tail = if lo != 0 {
            seq![MInst::Slli(rd, rd, 12u32), MInst::Addi(rd, rd, lo as i32)]
        } else {
            seq![MInst::Slli(rd, rd, 12u32)]
        };
        assert(seq == first + tail);
        lemma_code_split(m.memory, m.pc, first, tail);
        lemma_li64_loads(m, rd, up);
        let n1 = first.len();
        let m1 = after(m, rd, up as u64, n1);
        lemma_steps_split(m, n1, tail.len());
        let tw = plain_words(tail);
        assert(tw[0] == word_for(MInst::Slli(rd, rd, 12u32), 0i32));
        assert(fetch(m1.memory, m1.pc + 4 * 0) == tw[0]);
        lemma_step_slli12(m1, rd, rd);
        let shifted = (up as u64) << 12u32;
        let m2 = after(m1, rd, shifted, 1);
        lemma_after_after(m, rd, up as u64, n1, shifted, 1);
        if lo == 0 {
            assert(steps(m2, 0) == Some(m2));
            assert(steps(m1, 1) == Some(m2));
        } else {
            assert(tw[1] == word_for(MInst::Addi(rd, rd, lo as i32), 0i32));
            assert(fetch(m1.memory, m1.pc + 4 * 1) == tw[1]);
            assert(m2.pc == m1.pc + 4);
            lemma_step_addi(m2, rd, rd, lo as i32);
            lemma_wrap_u64(shifted, lo as i32 as i64 as u64);
            let v3 = shifted.wrapping_add(lo as i32 as i64 as u64);
            assert(v3 == imm as u64);
            let m3 = after(m2, rd, v3, 1);
            lemma_after_after(m, rd, shifted, n1 + 1, v3, 1);
            lemma_steps_split(m1, 1, 1);
            assert(steps(m3, 0) == Some(m3));
            assert(steps(m2, 1) == Some(m3));
            assert(steps(m1, 1) == Some(m2));
        }
    }
}

} // verus!
