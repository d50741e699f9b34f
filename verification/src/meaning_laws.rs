//! What comparisons and binary operations of the IR mean, and that the
//! places that evaluate them agree with that meaning: the machine code they
//! lower to, run on the interpreter, and constant folding of two constants.
use vstd::prelude::*;
use crate::arena::Value;
use crate::function::Function;
use crate::inst::{CmpOp, Immediate, Instruction};
use crate::emit::word_for;
use crate::isa_laws::{alu_effect, lemma_alu_word, lemma_signed_less, signed_less};
use crate::load_laws::{after, code_at, lemma_after_after, plain_words, regs_ok, steps};
use crate::opt::{arith_folding, as_unsigned, comparison_holds, const_of, folding, FoldOp, Folding};
use crate::riscv::{MInst, Reg};
use crate::select::{bin_minst, compare_code, BinKind};
use crate::vm::{div_s64, fetch, rem_s64, step, Machine};

verus! {

/// What a comparison says of two 64-bit values: that they are equal or
/// differ, how they are ordered when read as signed integers, or how they
/// are ordered as unsigned ones.
pub open spec fn compare_meaning(op: CmpOp, x: u64, y: u64) -> bool {
    match op {
        CmpOp::Eq => x == y,
        CmpOp::Ne => x != y,
        CmpOp::Lt => signed_less(x, y),
        CmpOp::Gt => signed_less(y, x),
        CmpOp::Le => !signed_less(y, x),
        CmpOp::Ge => !signed_less(x, y),
        CmpOp::Ult => x < y,
        CmpOp::Ugt => x > y,
        CmpOp::Ule => x <= y,
        CmpOp::Uge => x >= y,
    }
}

proof fn lemma_signed_less_i64(a: i64, b: i64)
    ensures
        (a < b) == signed_less(a as u64, b as u64),
{
    assert((a < b) == (if ((a as u64) >= 0x8000_0000_0000_0000u64) != ((b as u64) >= 0x8000_0000_0000_0000u64) {
        (a as u64) >= 0x8000_0000_0000_0000u64
    } else {
        (a as u64) < (b as u64)
    })) by (bit_vector);
}

proof fn lemma_flag_bits(x: u64, y: u64)
    ensures
        ((x ^ y) < 1u64) == (x == y),
        (0u64 < (x ^ y)) == (x != y),
        1u64 ^ 1u64 == 0u64,
        0u64 ^ 1u64 == 1u64,
        1i32 as i64 as u64 == 1u64,
{
    assert(((x ^ y) < 1u64) == (x == y) && (0u64 < (x ^ y)) == (x != y)
        && 1u64 ^ 1u64 == 0u64 && 0u64 ^ 1u64 == 1u64) by (bit_vector);
}

/// Running the code that a comparison lowers to, from a machine that holds
/// its words at the program counter, leaves 1 in the destination register
/// exactly when the comparison holds of the two source registers, and 0
/// otherwise; every other register and the memory stay as they were, and
/// the machine ends just past the code. This holds for all register values.
pub proof fn lemma_compare_runs(m: Machine, op: CmpOp, d: Reg, a: Reg, b: Reg)
    requires
        regs_ok(m),
        0 < d.0 < 32,
        a.0 < 32,
        b.0 < 32,
        code_at(m.memory, m.pc, plain_words(compare_code(op, d, a, b))),
    ensures
        steps(m, compare_code(op, d, a, b).len()) == Some(after(
            m,
            d,
            if compare_meaning(op, m.regs[a.0 as int], m.regs[b.0 as int]) { 1u64 } else { 0u64 },
            compare_code(op, d, a, b).len(),
        )),
{
    let code = compare_code(op, d, a, b);
    let w = plain_words(code);
    let x = m.regs[a.0 as int];
    let y = m.regs[b.0 as int];
    let r: u64 = if compare_meaning(op, x, y) { 1u64 } else { 0u64 };
    lemma_flag_bits(x, y);
    lemma_signed_less(x, y);
    lemma_signed_less(y, x);
    assert(w[0] == word_for(code[0], 0i32));
    assert(fetch(m.memory, m.pc + 4 * 0) == w[0]);
    lemma_alu_word(m, code[0]);
    let (d0, v0) = alu_effect(code[0], m.regs).unwrap();
    let m1 = after(m, d, v0, 1);
    assert(d0 == d);
    assert(step(m) == Some(m1));
    if code.len() == 1 {
        assert(steps(m1, 0) == Some(m1));
        assert(steps(m, 1) == steps(m1, 0));
        assert(v0 == r);
    } else {
        assert(w[1] == word_for(code[1], 0i32));
        assert(fetch(m.memory, m.pc + 4 * 1) == w[1]);
        assert(m1.regs[0] == 0);
        lemma_alu_word(m1, code[1]);
        let (d1, v1) = alu_effect(code[1], m1.regs).unwrap();
        let m2 = after(m1, d, v1, 1);
        lemma_after_after(m, d, v0, 1, v1, 1);
        assert(d1 == d);
        assert(step(m1) == Some(m2));
        assert(steps(m2, 0) == Some(m2));
        assert(steps(m1, 1) == steps(m2, 0));
        assert(steps(m, 2) == steps(m1, 1));
        assert(v1 == r);
    }
}


proof fn lemma_same_bits(a: i64, b: i64)
    ensures
        (a == b) == (a as u64 == b as u64),
{
    assert((a == b) == (a as u64 == b as u64)) by (bit_vector);
}

/// Folding a comparison of two constants gives the constant 1 exactly when
/// the comparison holds of their 64-bit values, and 0 otherwise.
pub proof fn lemma_fold_compare(f: &Function, op: CmpOp, a: Value, b: Value)
    requires
        const_of(f, a) is Some,
        const_of(f, b) is Some,
    ensures
        folding(f, Instruction::Cmp(op, a, b)) == Folding::Int(Immediate::I64(
            if compare_meaning(op, const_of(f, a)->Some_0.spec_as_i64() as u64, const_of(f, b)->Some_0.spec_as_i64() as u64) {
                1i64
            } else {
                0i64
            },
        )),
{
    let x = const_of(f, a)->Some_0.spec_as_i64();
    let y = const_of(f, b)->Some_0.spec_as_i64();
    lemma_signed_less_i64(x, y);
    lemma_signed_less_i64(y, x);
    lemma_same_bits(x, y);
    assert(as_unsigned(x) == x as u64 && as_unsigned(y) == y as u64);
    assert(comparison_holds(op, x, y) == compare_meaning(op, x as u64, y as u64));
}

/// A comparison of two constants folds to the value that its machine code
/// leaves in the destination register when run with the two constants in
/// its source registers: folding and the compiled code agree on every
/// comparison and every pair of constants.
pub proof fn lemma_fold_agrees_with_machine(
    f: &Function,
    op: CmpOp,
    va: Value,
    vb: Value,
    m: Machine,
    d: Reg,
    a: Reg,
    b: Reg,
)
    requires
        const_of(f, va) is Some,
        const_of(f, vb) is Some,
        regs_ok(m),
        0 < d.0 < 32,
        a.0 < 32,
        b.0 < 32,
        m.regs[a.0 as int] == const_of(f, va)->Some_0.spec_as_i64() as u64,
        m.regs[b.0 as int] == const_of(f, vb)->Some_0.spec_as_i64() as u64,
        code_at(m.memory, m.pc, plain_words(compare_code(op, d, a, b))),
    ensures
        folding(f, Instruction::Cmp(op, va, vb)) matches Folding::Int(Immediate::I64(c))
            && steps(m, compare_code(op, d, a, b).len()) matches Some(m2)
            && m2.regs[d.0 as int] == c as u64,
{
    lemma_fold_compare(f, op, va, vb);
    lemma_compare_runs(m, op, d, a, b);
}

proof fn lemma_wrap_bits(x: i64, y: i64)
    ensures
        (x.wrapping_add(y)) as u64 == (x as u64).wrapping_add(y as u64),
        (x.wrapping_sub(y)) as u64 == (x as u64).wrapping_sub(y as u64),
        (x.wrapping_mul(y)) as u64 == (x as u64).wrapping_mul(y as u64),
{
    assert((x.wrapping_add(y)) as u64 == (x as u64).wrapping_add(y as u64)
        && (x.wrapping_sub(y)) as u64 == (x as u64).wrapping_sub(y as u64)
        && (x.wrapping_mul(y)) as u64 == (x as u64).wrapping_mul(y as u64)) by (bit_vector);
}

/// Folding an addition, subtraction or multiplication of two integer
/// constants gives the value that the 64-bit machine instruction which the
/// operation lowers to computes from registers that hold the two constants.
pub proof fn lemma_fold_arith_agrees(xi: Immediate, yi: Immediate, regs: Seq<u64>, d: Reg, a: Reg, b: Reg)
    requires
        !((xi is F64 && yi is F64) || (xi is F32 && yi is F32)),
        regs.len() == 32,
        a.0 < 32,
        b.0 < 32,
        regs[a.0 as int] == xi.spec_as_i64() as u64,
        regs[b.0 as int] == yi.spec_as_i64() as u64,
    ensures
        arith_folding(FoldOp::Add, xi, yi) matches Folding::Int(Immediate::I64(c))
            && alu_effect(bin_minst(BinKind::Add, false, d, a, b), regs) == Some((d, c as u64)),
        arith_folding(FoldOp::Sub, xi, yi) matches Folding::Int(Immediate::I64(c))
            && alu_effect(bin_minst(BinKind::Sub, false, d, a, b), regs) == Some((d, c as u64)),
        arith_folding(FoldOp::Mul, xi, yi) matches Folding::Int(Immediate::I64(c))
            && alu_effect(bin_minst(BinKind::Mul, false, d, a, b), regs) == Some((d, c as u64)),
{
    lemma_wrap_bits(xi.spec_as_i64(), yi.spec_as_i64());
}

/// What a 64-bit binary operation of the IR computes from two register
/// values: wrapping arithmetic, signed division and remainder as the
/// instruction set defines them, bitwise operations, and shifts by the low
/// six bits of the amount, `shr` filling with zeros and `sar` with the sign.
pub open spec fn binary_meaning(k: BinKind, x: u64, y: u64) -> u64 {
    match k {
        BinKind::Add => x.wrapping_add(y),
        BinKind::Sub => x.wrapping_sub(y),
        BinKind::Mul => x.wrapping_mul(y),
        BinKind::Div => div_s64(x as i64, y as i64) as u64,
        BinKind::Rem => rem_s64(x as i64, y as i64) as u64,
        BinKind::And => x & y,
        BinKind::Or => x | y,
        BinKind::Xor => x ^ y,
        BinKind::Shl => x << (y % 64),
        BinKind::Shr => x >> (y % 64),
        BinKind::Sar => ((x as i64) >> (y % 64)) as u64,
    }
}

/// The machine instruction that a 64-bit binary operation lowers to
/// computes that operation of its two source registers into its destination.
pub proof fn lemma_binary_lowering(k: BinKind, d: Reg, a: Reg, b: Reg, regs: Seq<u64>)
    requires
        regs.len() == 32,
        a.0 < 32,
        b.0 < 32,
    ensures
        alu_effect(bin_minst(k, false, d, a, b), regs)
            == Some((d, binary_meaning(k, regs[a.0 as int], regs[b.0 as int]))),
{
}

} // verus!
