//! Registers and machine instructions of the RISC-V 64-bit target.
use vstd::prelude::*;
use crate::arena::Block;

verus! {

/// Register numbers of the RISC-V integer register file, by ABI name.
pub const ZERO: u8 = 0;
pub const RA: u8 = 1;
pub const SP: u8 = 2;
pub const GP: u8 = 3;
pub const TP: u8 = 4;
pub const T0: u8 = 5;
pub const T1: u8 = 6;
pub const T2: u8 = 7;
pub const FP: u8 = 8;
pub const S1: u8 = 9;
pub const A0: u8 = 10;
pub const A1: u8 = 11;
pub const A2: u8 = 12;
pub const A3: u8 = 13;
pub const A4: u8 = 14;
pub const A5: u8 = 15;
pub const A6: u8 = 16;
pub const A7: u8 = 17;
pub const S2: u8 = 18;
pub const S3: u8 = 19;
pub const S4: u8 = 20;
pub const S5: u8 = 21;
pub const S6: u8 = 22;
pub const S7: u8 = 23;
pub const S8: u8 = 24;
pub const S9: u8 = 25;
pub const S10: u8 = 26;
pub const S11: u8 = 27;
pub const T3: u8 = 28;
pub const T4: u8 = 29;
pub const T5: u8 = 30;
pub const T6: u8 = 31;

/// A RISC-V 64-bit general purpose register.
#[derive(Copy, Clone, PartialEq, Eq, Structural, Hash, Debug)]
pub struct Reg(pub u8);

impl Reg {
    /// The standard ABI name of register number `n`.
    pub open spec fn abi(n: u8) -> Seq<char> {
        if n == 0 { "zero"@ }
        else if n == 1 { "ra"@ }
        else if n == 2 { "sp"@ }
        else if n == 3 { "gp"@ }
        else if n == 4 { "tp"@ }
        else if n == 5 { "t0"@ }
        else if n == 6 { "t1"@ }
        else if n == 7 { "t2"@ }
        else if n == 8 { "fp"@ }
        else if n == 9 { "s1"@ }
        else if 10 <= n <= 17 { seq!['a', crate::text::digit_char((n - 10) as nat)] }
        else if 18 <= n <= 25 { seq!['s', crate::text::digit_char((n - 16) as nat)] }
        else if n == 26 { "s10"@ }
        else if n == 27 { "s11"@ }
        else if 28 <= n <= 31 { seq!['t', crate::text::digit_char((n - 25) as nat)] }
        else { "unknown"@ }
    }

    /// Returns the standard ABI name of the register.
    pub fn abi_name(&self) -> (r: &'static str)
        ensures
            r@ == Reg::abi(self.0),
    {
        proof {
            reveal_strlit("a0"); reveal_strlit("a1"); reveal_strlit("a2"); reveal_strlit("a3");
            reveal_strlit("a4"); reveal_strlit("a5"); reveal_strlit("a6"); reveal_strlit("a7");
            reveal_strlit("s2"); reveal_strlit("s3"); reveal_strlit("s4"); reveal_strlit("s5");
            reveal_strlit("s6"); reveal_strlit("s7"); reveal_strlit("s8"); reveal_strlit("s9");
            reveal_strlit("t3"); reveal_strlit("t4"); reveal_strlit("t5"); reveal_strlit("t6");
        }
        match self.0 {
            0 => "zero",
            1 => "ra",
            2 => "sp",
            3 => "gp",
            4 => "tp",
            5 => "t0",
            6 => "t1",
            7 => "t2",
            8 => "fp",
            9 => "s1",
            10 => "a0",
            11 => "a1",
            12 => "a2",
            13 => "a3",
            14 => "a4",
            15 => "a5",
            16 => "a6",
            17 => "a7",
            18 => "s2",
            19 => "s3",
            20 => "s4",
            21 => "s5",
            22 => "s6",
            23 => "s7",
            24 => "s8",
            25 => "s9",
            26 => "s10",
            27 => "s11",
            28 => "t3",
            29 => "t4",
            30 => "t5",
            31 => "t6",
            _ => "unknown",
        }
    }
}

/// A machine instruction of the RISC-V 64-bit (RV64IM) target.
#[derive(Clone, PartialEq, Eq, Debug)]
pub enum MInst {
    /// Basic block label (pseudo instruction used for branch targets).
    Label(Block),
    Add(Reg, Reg, Reg),
    Sub(Reg, Reg, Reg),
    Mul(Reg, Reg, Reg),
    Div(Reg, Reg, Reg),
    Divu(Reg, Reg, Reg),
    Rem(Reg, Reg, Reg),
    Remu(Reg, Reg, Reg),
    And(Reg, Reg, Reg),
    Or(Reg, Reg, Reg),
    Xor(Reg, Reg, Reg),
    Sll(Reg, Reg, Reg),
    Srl(Reg, Reg, Reg),
    Sra(Reg, Reg, Reg),
    Slt(Reg, Reg, Reg),
    Sltu(Reg, Reg, Reg),
    Addw(Reg, Reg, Reg),
    Subw(Reg, Reg, Reg),
    Mulw(Reg, Reg, Reg),
    Divw(Reg, Reg, Reg),
    Divuw(Reg, Reg, Reg),
    Remw(Reg, Reg, Reg),
    Remuw(Reg, Reg, Reg),
    Sllw(Reg, Reg, Reg),
    Srlw(Reg, Reg, Reg),
    Sraw(Reg, Reg, Reg),
    Addi(Reg, Reg, i32),
    Addiw(Reg, Reg, i32),
    Xori(Reg, Reg, i32),
    Ori(Reg, Reg, i32),
    Andi(Reg, Reg, i32),
    Slli(Reg, Reg, u32),
    Srli(Reg, Reg, u32),
    Srai(Reg, Reg, u32),
    Slliw(Reg, Reg, u32),
    Srliw(Reg, Reg, u32),
    Sraiw(Reg, Reg, u32),
    Slti(Reg, Reg, i32),
    Sltiu(Reg, Reg, i32),
    Lui(Reg, i32),
    Auipc(Reg, i32),
    /// Pseudo instruction: loads an arbitrary 64-bit integer into a register.
    Li64(Reg, i64),
    Ld(Reg, Reg, i32),
    Lw(Reg, Reg, i32),
    Lwu(Reg, Reg, i32),
    Lh(Reg, Reg, i32),
    Lhu(Reg, Reg, i32),
    Lb(Reg, Reg, i32),
    Lbu(Reg, Reg, i32),
    Sd(Reg, Reg, i32),
    Sw(Reg, Reg, i32),
    Sh(Reg, Reg, i32),
    Sb(Reg, Reg, i32),
    Beq(Reg, Reg, Block),
    Bne(Reg, Reg, Block),
    Blt(Reg, Reg, Block),
    Bge(Reg, Reg, Block),
    Bltu(Reg, Reg, Block),
    Bgeu(Reg, Reg, Block),
    Jal(Reg, Block),
    Jalr(Reg, Reg, i32),
    /// Pseudo instruction: calls an external function by name.
    Call(String),
    /// Pseudo instruction: returns to the caller.
    Ret,
}


/// A copy of a machine instruction.
pub fn copy_minst(inst: &MInst) -> (r: MInst)
    ensures
        r == *inst,
{
    match inst {
        MInst::Label(a0) => MInst::Label(*a0),
        MInst::Add(a0, a1, a2) => MInst::Add(*a0, *a1, *a2),
        MInst::Sub(a0, a1, a2) => MInst::Sub(*a0, *a1, *a2),
        MInst::Mul(a0, a1, a2) => MInst::Mul(*a0, *a1, *a2),
        MInst::Div(a0, a1, a2) => MInst::Div(*a0, *a1, *a2),
        MInst::Divu(a0, a1, a2) => MInst::Divu(*a0, *a1, *a2),
        MInst::Rem(a0, a1, a2) => MInst::Rem(*a0, *a1, *a2),
        MInst::Remu(a0, a1, a2) => MInst::Remu(*a0, *a1, *a2),
        MInst::And(a0, a1, a2) => MInst::And(*a0, *a1, *a2),
        MInst::Or(a0, a1, a2) => MInst::Or(*a0, *a1, *a2),
        MInst::Xor(a0, a1, a2) => MInst::Xor(*a0, *a1, *a2),
        MInst::Sll(a0, a1, a2) => MInst::Sll(*a0, *a1, *a2),
        MInst::Srl(a0, a1, a2) => MInst::Srl(*a0, *a1, *a2),
        MInst::Sra(a0, a1, a2) => MInst::Sra(*a0, *a1, *a2),
        MInst::Slt(a0, a1, a2) => MInst::Slt(*a0, *a1, *a2),
        MInst::Sltu(a0, a1, a2) => MInst::Sltu(*a0, *a1, *a2),
        MInst::Addw(a0, a1, a2) => MInst::Addw(*a0, *a1, *a2),
        MInst::Subw(a0, a1, a2) => MInst::Subw(*a0, *a1, *a2),
        MInst::Mulw(a0, a1, a2) => MInst::Mulw(*a0, *a1, *a2),
        MInst::Divw(a0, a1, a2) => MInst::Divw(*a0, *a1, *a2),
        MInst::Divuw(a0, a1, a2) => MInst::Divuw(*a0, *a1, *a2),
        MInst::Remw(a0, a1, a2) => MInst::Remw(*a0, *a1, *a2),
        MInst::Remuw(a0, a1, a2) => MInst::Remuw(*a0, *a1, *a2),
        MInst::Sllw(a0, a1, a2) => MInst::Sllw(*a0, *a1, *a2),
        MInst::Srlw(a0, a1, a2) => MInst::Srlw(*a0, *a1, *a2),
        MInst::Sraw(a0, a1, a2) => MInst::Sraw(*a0, *a1, *a2),
        MInst::Addi(a0, a1, a2) => MInst::Addi(*a0, *a1, *a2),
        MInst::Addiw(a0, a1, a2) => MInst::Addiw(*a0, *a1, *a2),
        MInst::Xori(a0, a1, a2) => MInst::Xori(*a0, *a1, *a2),
        MInst::Ori(a0, a1, a2) => MInst::Ori(*a0, *a1, *a2),
        MInst::Andi(a0, a1, a2) => MInst::Andi(*a0, *a1, *a2),
        MInst::Slli(a0, a1, a2) => MInst::Slli(*a0, *a1, *a2),
        MInst::Srli(a0, a1, a2) => MInst::Srli(*a0, *a1, *a2),
        MInst::Srai(a0, a1, a2) => MInst::Srai(*a0, *a1, *a2),
        MInst::Slliw(a0, a1, a2) => MInst::Slliw(*a0, *a1, *a2),
        MInst::Srliw(a0, a1, a2) => MInst::Srliw(*a0, *a1, *a2),
        MInst::Sraiw(a0, a1, a2) => MInst::Sraiw(*a0, *a1, *a2),
        MInst::Slti(a0, a1, a2) => MInst::Slti(*a0, *a1, *a2),
        MInst::Sltiu(a0, a1, a2) => MInst::Sltiu(*a0, *a1, *a2),
        MInst::Lui(a0, a1) => MInst::Lui(*a0, *a1),
        MInst::Auipc(a0, a1) => MInst::Auipc(*a0, *a1),
        MInst::Li64(a0, a1) => MInst::Li64(*a0, *a1),
        MInst::Ld(a0, a1, a2) => MInst::Ld(*a0, *a1, *a2),
        MInst::Lw(a0, a1, a2) => MInst::Lw(*a0, *a1, *a2),
        MInst::Lwu(a0, a1, a2) => MInst::Lwu(*a0, *a1, *a2),
        MInst::Lh(a0, a1, a2) => MInst::Lh(*a0, *a1, *a2),
        MInst::Lhu(a0, a1, a2) => MInst::Lhu(*a0, *a1, *a2),
        MInst::Lb(a0, a1, a2) => MInst::Lb(*a0, *a1, *a2),
        MInst::Lbu(a0, a1, a2) => MInst::Lbu(*a0, *a1, *a2),
        MInst::Sd(a0, a1, a2) => MInst::Sd(*a0, *a1, *a2),
        MInst::Sw(a0, a1, a2) => MInst::Sw(*a0, *a1, *a2),
        MInst::Sh(a0, a1, a2) => MInst::Sh(*a0, *a1, *a2),
        MInst::Sb(a0, a1, a2) => MInst::Sb(*a0, *a1, *a2),
        MInst::Beq(a0, a1, a2) => MInst::Beq(*a0, *a1, *a2),
        MInst::Bne(a0, a1, a2) => MInst::Bne(*a0, *a1, *a2),
        MInst::Blt(a0, a1, a2) => MInst::Blt(*a0, *a1, *a2),
        MInst::Bge(a0, a1, a2) => MInst::Bge(*a0, *a1, *a2),
        MInst::Bltu(a0, a1, a2) => MInst::Bltu(*a0, *a1, *a2),
        MInst::Bgeu(a0, a1, a2) => MInst::Bgeu(*a0, *a1, *a2),
        MInst::Jal(a0, a1) => MInst::Jal(*a0, *a1),
        MInst::Jalr(a0, a1, a2) => MInst::Jalr(*a0, *a1, *a2),
        MInst::Call(a0) => MInst::Call(a0.clone()),
        MInst::Ret => MInst::Ret,
    }
}

impl MInst {
    pub fn is_label(&self) -> (r: bool)
        ensures
            r == (*self is Label),
    {
        matches!(self, MInst::Label(_))
    }

    /// Register move: `mv rd, rs` is `addi rd, rs, 0`.
    pub fn mv(rd: Reg, rs: Reg) -> (r: Self)
        ensures
            r == MInst::Addi(rd, rs, 0),
    {
        MInst::Addi(rd, rs, 0)
    }

    /// No operation: `addi zero, zero, 0`.
    pub fn nop() -> (r: Self)
        ensures
            r == MInst::Addi(Reg(0), Reg(0), 0),
    {
        MInst::Addi(Reg(ZERO), Reg(ZERO), 0)
    }
}

} // verus!
