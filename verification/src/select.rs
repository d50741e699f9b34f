//! Instruction selection: lowering IR functions to RISC-V machine instructions.
//!
//! The frame, from the frame pointer down: the return address and the saved
//! frame pointer (16 bytes), the callee-saved registers in use, the spill
//! slots, a backup area (for parameters, phi copies and call arguments),
//! and 64 bytes for each `alloca`.
use vstd::prelude::*;
use crate::arena::{Block, EntityId, Inst, Value};
use crate::function::{inst_result, lemma_inst_result, Function, ValueDef};
use crate::inst::{CmpOp, Instruction};
use crate::regalloc::{allocate_registers, block_order, block_order_of, entry_of, places, Allocation, RegAllocResult};
use crate::riscv::{MInst, Reg};
use crate::types::Type;

verus! {

/// A function lowered to machine instructions, with the size of its stack frame.
#[derive(Clone, Debug, PartialEq, Eq)]
pub struct LoweredFunction {
    pub name: String,
    pub insts: Vec<MInst>,
    pub frame_size: i32,
}

// ---------------------------------------------------------------------------
// Emission helpers

pub open spec fn fits12(imm: i32) -> bool {
    -2048 <= imm <= 2047
}

/// `rd = rs + imm`, through `t0` when the immediate does not fit 12 bits.
pub open spec fn add_imm_code(rd: Reg, rs: Reg, imm: i32) -> Seq<MInst> {
    if fits12(imm) {
        seq![MInst::Addi(rd, rs, imm)]
    } else {
        seq![MInst::Li64(Reg(5), imm as i64), MInst::Add(rd, rs, Reg(5))]
    }
}

/// Stores `src` at `base + offset`, through an address register when the
/// offset does not fit 12 bits.
pub open spec fn store_code(base: Reg, src: Reg, offset: i32) -> Seq<MInst> {
    if fits12(offset) {
        seq![MInst::Sd(base, src, offset)]
    } else {
        let a = if src == Reg(5) { Reg(6) } else { Reg(5) };
        seq![MInst::Li64(a, offset as i64), MInst::Add(a, base, a), MInst::Sd(a, src, 0)]
    }
}

/// Loads `dest` from `base + offset`.
pub open spec fn load_code(dest: Reg, base: Reg, offset: i32) -> Seq<MInst> {
    if fits12(offset) {
        seq![MInst::Ld(dest, base, offset)]
    } else {
        let a = if dest == Reg(5) { Reg(6) } else { Reg(5) };
        seq![MInst::Li64(a, offset as i64), MInst::Add(a, base, a), MInst::Ld(dest, a, 0)]
    }
}

/// What the lowering of a function fixes before it emits anything: each
/// value's allocation, the callee-saved registers to save (in increasing
/// number), each instruction's `alloca` offset, each instruction's result
/// value, the frame size and the offset of the backup area.
pub struct Frame {
    pub allocs: Seq<Allocation>,
    pub callee: Seq<Reg>,
    pub alloca: Seq<Option<i32>>,
    pub results: Seq<Option<Value>>,
    pub frame_size: i32,
    pub backup_offset: i32,
    pub backup_slots: int,
}

pub open spec fn alloc_of(fr: Frame, v: Value) -> Allocation {
    if v.0 < fr.allocs.len() { fr.allocs[v.0 as int] } else { Allocation::SpillSlot(0) }
}

pub proof fn lemma_alloc_of(fr: Frame, v: Value)
    requires
        offsets_fit(fr),
    ensures
        alloc_of(fr, v) matches Allocation::SpillSlot(s) ==> 0 <= s && spill_offset(fr, s) >= i32::MIN,
{
    if v.0 < fr.allocs.len() {
        assert(fr.allocs[v.0 as int] == alloc_of(fr, v));
    }
}

/// The frame-pointer offset of a spill slot.
pub open spec fn spill_offset(fr: Frame, slot: i32) -> int {
    -16 - 8 * fr.callee.len() - 8 * (slot + 1)
}

/// The code that brings a value into a register, and the register.
pub open spec fn operand_code(fr: Frame, v: Value, scratch: Reg) -> (Seq<MInst>, Reg) {
    match alloc_of(fr, v) {
        Allocation::Reg(r) => (seq![], r),
        Allocation::SpillSlot(s) => (load_code(scratch, Reg(8), spill_offset(fr, s) as i32), scratch),
    }
}

/// The register an instruction computes a value into.
pub open spec fn dest_of(fr: Frame, v: Value, scratch: Reg) -> Reg {
    match alloc_of(fr, v) {
        Allocation::Reg(r) => r,
        Allocation::SpillSlot(_) => scratch,
    }
}

/// The code that puts a computed value where it lives.
pub open spec fn result_code(fr: Frame, v: Value, from: Reg) -> Seq<MInst> {
    match alloc_of(fr, v) {
        Allocation::Reg(r) => if r != from { seq![MInst::Addi(r, from, 0)] } else { seq![] },
        Allocation::SpillSlot(s) => store_code(Reg(8), from, spill_offset(fr, s) as i32),
    }
}

/// The spill offsets of the frame fit the offset arithmetic.
pub open spec fn offsets_fit(fr: Frame) -> bool {
    &&& forall|v: int| 0 <= v < fr.allocs.len() ==> ((#[trigger] fr.allocs[v]) matches Allocation::SpillSlot(s)
        ==> i32::MIN <= spill_offset(fr, s) && 0 <= s)
    &&& -16 - 8 * fr.callee.len() - 8 >= i32::MIN
    &&& fr.callee.len() <= 1_000_000
}

/// The lowering state: the function, its frame, the code so far and the next
/// label number for blocks that the lowering makes up.
pub struct Lowerer<'a> {
    func: &'a Function,
    insts: Vec<MInst>,
    allocations: Vec<Allocation>,
    callee_saved_list: Vec<Reg>,
    alloca_offsets: Vec<Option<i32>>,
    inst_to_val: Vec<Option<Value>>,
    frame_size: i32,
    backup_offset: i32,
    backup_slots: i32,
    next_synthetic_block_id: u32,
}

impl<'a> Lowerer<'a> {
    pub closed spec fn frame(&self) -> Frame {
        Frame {
            allocs: self.allocations@,
            callee: self.callee_saved_list@,
            alloca: self.alloca_offsets@,
            results: self.inst_to_val@,
            frame_size: self.frame_size,
            backup_offset: self.backup_offset,
            backup_slots: self.backup_slots as int,
        }
    }

    /// Everything but the code and the label counter stays.
    pub closed spec fn same_frame(&self, other: &Lowerer) -> bool {
        &&& self.func == other.func
        &&& self.allocations == other.allocations
        &&& self.callee_saved_list == other.callee_saved_list
        &&& self.alloca_offsets == other.alloca_offsets
        &&& self.inst_to_val == other.inst_to_val
        &&& self.frame_size == other.frame_size
        &&& self.backup_offset == other.backup_offset
        &&& self.backup_slots == other.backup_slots
    }

    fn emit_add_imm(&mut self, rd: Reg, rs: Reg, imm: i32)
        ensures
            final(self).insts@ == old(self).insts@ + add_imm_code(rd, rs, imm),
            final(self).same_frame(old(self)),
            final(self).next_synthetic_block_id == old(self).next_synthetic_block_id,
    {
        if -2048 <= imm && imm <= 2047 {
            self.insts.push(MInst::Addi(rd, rs, imm));
        } else {
            self.insts.push(MInst::Li64(Reg(crate::riscv::T0), imm as i64));
            self.insts.push(MInst::Add(rd, rs, Reg(crate::riscv::T0)));
        }
        assert(self.insts@ =~= old(self).insts@ + add_imm_code(rd, rs, imm));
    }

    fn emit_store_reg_offset(&mut self, base: Reg, src: Reg, offset: i32)
        ensures
            final(self).insts@ == old(self).insts@ + store_code(base, src, offset),
            final(self).same_frame(old(self)),
            final(self).next_synthetic_block_id == old(self).next_synthetic_block_id,
    {
        if -2048 <= offset && offset <= 2047 {
            self.insts.push(MInst::Sd(base, src, offset));
        } else {
            let addr_reg = if src == Reg(crate::riscv::T0) { Reg(crate::riscv::T1) } else { Reg(crate::riscv::T0) };
            self.insts.push(MInst::Li64(addr_reg, offset as i64));
            self.insts.push(MInst::Add(addr_reg, base, addr_reg));
            self.insts.push(MInst::Sd(addr_reg, src, 0));
        }
        assert(self.insts@ =~= old(self).insts@ + store_code(base, src, offset));
    }

    fn emit_load_reg_offset(&mut self, dest: Reg, base: Reg, offset: i32)
        ensures
            final(self).insts@ == old(self).insts@ + load_code(dest, base, offset),
            final(self).same_frame(old(self)),
            final(self).next_synthetic_block_id == old(self).next_synthetic_block_id,
    {
        if -2048 <= offset && offset <= 2047 {
            self.insts.push(MInst::Ld(dest, base, offset));
        } else {
            let addr_reg = if dest == Reg(crate::riscv::T0) { Reg(crate::riscv::T1) } else { Reg(crate::riscv::T0) };
            self.insts.push(MInst::Li64(addr_reg, offset as i64));
            self.insts.push(MInst::Add(addr_reg, base, addr_reg));
            self.insts.push(MInst::Ld(dest, addr_reg, 0));
        }
        assert(self.insts@ =~= old(self).insts@ + load_code(dest, base, offset));
    }

    fn allocation(&self, val: Value) -> (r: Allocation)
        ensures
            r == alloc_of(self.frame(), val),
    {
        let i = val.0 as usize;
        if i < self.allocations.len() {
            self.allocations[i]
        } else {
            Allocation::SpillSlot(0)
        }
    }

    fn spill_offset(&self, slot: i32) -> (r: i32)
        requires
            0 <= slot,
            spill_offset(self.frame(), slot) >= i32::MIN,
            self.frame().callee.len() <= 1_000_000,
        ensures
            r == spill_offset(self.frame(), slot),
    {
        let n = self.callee_saved_list.len() as i32;
        -16 - 8 * n - 8 * (slot + 1)
    }

    fn load_operand(&mut self, val: Value, scratch: Reg) -> (r: Reg)
        requires
            offsets_fit(old(self).frame()),
        ensures
            final(self).insts@ == old(self).insts@ + operand_code(old(self).frame(), val, scratch).0,
            r == operand_code(old(self).frame(), val, scratch).1,
            final(self).same_frame(old(self)),
            final(self).next_synthetic_block_id == old(self).next_synthetic_block_id,
    {
        match self.allocation(val) {
            Allocation::Reg(r) => {
                assert(self.insts@ =~= old(self).insts@ + operand_code(old(self).frame(), val, scratch).0);
                r
            }
            Allocation::SpillSlot(slot) => {
                proof { lemma_alloc_of(self.frame(), val); }
                let offset = self.spill_offset(slot);
                self.emit_load_reg_offset(scratch, Reg(crate::riscv::FP), offset);
                scratch
            }
        }
    }

    fn get_dest(&self, val: Value, scratch: Reg) -> (r: Reg)
        ensures
            r == dest_of(self.frame(), val, scratch),
    {
        match self.allocation(val) {
            Allocation::Reg(r) => r,
            Allocation::SpillSlot(_) => scratch,
        }
    }

    fn store_result(&mut self, val: Value, from_reg: Reg)
        requires
            offsets_fit(old(self).frame()),
        ensures
            final(self).insts@ == old(self).insts@ + result_code(old(self).frame(), val, from_reg),
            final(self).same_frame(old(self)),
            final(self).next_synthetic_block_id == old(self).next_synthetic_block_id,
    {
        match self.allocation(val) {
            Allocation::Reg(r) => {
                if r != from_reg {
                    self.insts.push(MInst::mv(r, from_reg));
                }
                assert(self.insts@ =~= old(self).insts@ + result_code(old(self).frame(), val, from_reg));
            }
            Allocation::SpillSlot(slot) => {
                proof { lemma_alloc_of(self.frame(), val); }
                let offset = self.spill_offset(slot);
                self.emit_store_reg_offset(Reg(crate::riscv::FP), from_reg, offset);
            }
        }
    }
}


// ---------------------------------------------------------------------------
// Prologue, epilogue and parameters

pub open spec fn callee_saves(fr: Frame, n: int) -> Seq<MInst>
    decreases n,
{
    if n <= 0 {
        seq![]
    } else {
        callee_saves(fr, n - 1) + store_code(Reg(8), fr.callee[n - 1], (-16 - 8 * n) as i32)
    }
}

pub open spec fn callee_restores(fr: Frame, n: int) -> Seq<MInst>
    decreases n,
{
    if n <= 0 {
        seq![]
    } else {
        callee_restores(fr, n - 1) + load_code(fr.callee[n - 1], Reg(8), (-16 - 8 * n) as i32)
    }
}

/// Opens the frame and saves the return address, the caller's frame
/// pointer and the callee-saved registers in use.
pub open spec fn prologue_code(fr: Frame) -> Seq<MInst> {
    let fs = fr.frame_size;
    add_imm_code(Reg(2), Reg(2), (-fs) as i32) + store_code(Reg(2), Reg(1), (fs - 8) as i32)
        + store_code(Reg(2), Reg(8), (fs - 16) as i32) + add_imm_code(Reg(8), Reg(2), fs)
        + callee_saves(fr, fr.callee.len() as int)
}

/// Restores what the prologue saved, closes the frame and returns.
pub open spec fn epilogue_code(fr: Frame) -> Seq<MInst> {
    let fs = fr.frame_size;
    callee_restores(fr, fr.callee.len() as int) + load_code(Reg(1), Reg(2), (fs - 8) as i32)
        + load_code(Reg(8), Reg(2), (fs - 16) as i32) + add_imm_code(Reg(2), Reg(2), fs) + seq![MInst::Ret]
}

/// The parameters that arrive in `a0`-`a7` go to the backup area first.
pub open spec fn param_backups(fr: Frame, n: int) -> Seq<MInst>
    decreases n,
{
    if n <= 0 {
        seq![]
    } else {
        param_backups(fr, n - 1) + store_code(Reg(8), Reg((10 + n - 1) as u8), (fr.backup_offset + 8 * (n - 1)) as i32)
    }
}

/// Each parameter is then loaded (from the backup area, or from the caller's
/// stack from the ninth on) and put where it lives.
pub open spec fn param_loads(f: &Function, fr: Frame, n: int) -> Seq<MInst>
    decreases n,
{
    if n <= 0 {
        seq![]
    } else {
        let i = n - 1;
        let load = if i < 8 {
            load_code(Reg(5), Reg(8), (fr.backup_offset + 8 * i) as i32)
        } else {
            load_code(Reg(5), Reg(8), (8 * (i - 8)) as i32)
        };
        param_loads(f, fr, n - 1) + load + result_code(fr, f.params@[i].1, Reg(5))
    }
}

pub open spec fn save_params_code(f: &Function, fr: Frame) -> Seq<MInst> {
    let np = f.params@.len() as int;
    param_backups(fr, if np < 8 { np } else { 8 }) + param_loads(f, fr, np)
}

/// The frame's offsets all fit: the frame size, the callee-saved slots, the
/// spill slots and the backup area are within range.
pub open spec fn frame_ok(fr: Frame) -> bool {
    &&& offsets_fit(fr)
    &&& 16 <= fr.frame_size <= i32::MAX
    &&& fr.callee.len() <= 32
    &&& i32::MIN <= fr.backup_offset
    &&& fr.backup_offset + 8 * fr.backup_slots <= 0
    &&& 0 <= fr.backup_slots
    &&& 8 * fr.backup_slots <= i32::MAX
}

impl<'a> Lowerer<'a> {
    fn emit_prologue(&mut self)
        requires
            frame_ok(old(self).frame()),
        ensures
            final(self).insts@ == old(self).insts@ + prologue_code(old(self).frame()),
            final(self).same_frame(old(self)),
            final(self).next_synthetic_block_id == old(self).next_synthetic_block_id,
    {
        let ghost fr = self.frame();
        let fs = self.frame_size;
        self.emit_add_imm(Reg(crate::riscv::SP), Reg(crate::riscv::SP), -fs);
        self.emit_store_reg_offset(Reg(crate::riscv::SP), Reg(crate::riscv::RA), fs - 8);
        self.emit_store_reg_offset(Reg(crate::riscv::SP), Reg(crate::riscv::FP), fs - 16);
        self.emit_add_imm(Reg(crate::riscv::FP), Reg(crate::riscv::SP), fs);
        let ghost mid = self.insts@;
        let n = self.callee_saved_list.len();
        let mut i: usize = 0;
        while i < n
            invariant
                self.same_frame(old(self)),
                self.frame() == fr,
                n == fr.callee.len(),
                n <= 32,
                i <= n,
                self.insts@ == mid + callee_saves(fr, i as int),
                self.next_synthetic_block_id == old(self).next_synthetic_block_id,
            decreases n - i,
        {
            let reg = self.callee_saved_list[i];
            let offset = -16 - 8 * (i as i32 + 1);
            self.emit_store_reg_offset(Reg(crate::riscv::FP), reg, offset);
            i = i + 1;
            assert(self.insts@ =~= mid + callee_saves(fr, i as int));
        }
        assert(self.insts@ =~= old(self).insts@ + prologue_code(fr));
    }

    fn emit_epilogue(&mut self)
        requires
            frame_ok(old(self).frame()),
        ensures
            final(self).insts@ == old(self).insts@ + epilogue_code(old(self).frame()),
            final(self).same_frame(old(self)),
            final(self).next_synthetic_block_id == old(self).next_synthetic_block_id,
    {
        let ghost fr = self.frame();
        let n = self.callee_saved_list.len();
        let mut i: usize = 0;
        while i < n
            invariant
                self.same_frame(old(self)),
                self.frame() == fr,
                n == fr.callee.len(),
                n <= 32,
                i <= n,
                self.insts@ == old(self).insts@ + callee_restores(fr, i as int),
                self.next_synthetic_block_id == old(self).next_synthetic_block_id,
            decreases n - i,
        {
            let reg = self.callee_saved_list[i];
            let offset = -16 - 8 * (i as i32 + 1);
            self.emit_load_reg_offset(reg, Reg(crate::riscv::FP), offset);
            i = i + 1;
            assert(self.insts@ =~= old(self).insts@ + callee_restores(fr, i as int));
        }
        let fs = self.frame_size;
        self.emit_load_reg_offset(Reg(crate::riscv::RA), Reg(crate::riscv::SP), fs - 8);
        self.emit_load_reg_offset(Reg(crate::riscv::FP), Reg(crate::riscv::SP), fs - 16);
        self.emit_add_imm(Reg(crate::riscv::SP), Reg(crate::riscv::SP), fs);
        self.insts.push(MInst::Ret);
        assert(self.insts@ =~= old(self).insts@ + epilogue_code(fr));
    }

    fn save_params(&mut self)
        requires
            frame_ok(old(self).frame()),
            old(self).func.params@.len() <= old(self).frame().backup_slots,
        ensures
            final(self).insts@ == old(self).insts@ + save_params_code(old(self).func, old(self).frame()),
            final(self).same_frame(old(self)),
            final(self).next_synthetic_block_id == old(self).next_synthetic_block_id,
    {
        let ghost fr = self.frame();
        let np = self.func.params.len();
        let m = if np < 8 { np } else { 8 };
        let mut i: usize = 0;
        while i < m
            invariant
                self.same_frame(old(self)),
                self.frame() == fr,
                frame_ok(fr),
                np <= fr.backup_slots,
                np == self.func.params@.len(),
                m == (if np < 8 { np } else { 8 }),
                i <= m,
                self.insts@ == old(self).insts@ + param_backups(fr, i as int),
                self.next_synthetic_block_id == old(self).next_synthetic_block_id,
            decreases m - i,
        {
            let reg = Reg(10 + i as u8);
            let off = self.backup_offset + 8 * (i as i32);
            self.emit_store_reg_offset(Reg(crate::riscv::FP), reg, off);
            i = i + 1;
            assert(self.insts@ =~= old(self).insts@ + param_backups(fr, i as int));
        }
        let ghost mid = self.insts@;
        let mut i: usize = 0;
        while i < np
            invariant
                self.same_frame(old(self)),
                self.frame() == fr,
                frame_ok(fr),
                np <= fr.backup_slots,
                np == self.func.params@.len(),
                i <= np,
                self.insts@ == mid + param_loads(self.func, fr, i as int),
                self.next_synthetic_block_id == old(self).next_synthetic_block_id,
            decreases np - i,
        {
            let val = self.func.params[i].1;
            if i < 8 {
                let off = self.backup_offset + 8 * (i as i32);
                self.emit_load_reg_offset(Reg(crate::riscv::T0), Reg(crate::riscv::FP), off);
            } else {
                let off = 8 * (i as i32 - 8);
                self.emit_load_reg_offset(Reg(crate::riscv::T0), Reg(crate::riscv::FP), off);
            }
            self.store_result(val, Reg(crate::riscv::T0));
            i = i + 1;
            assert(self.insts@ =~= mid + param_loads(self.func, fr, i as int));
        }
        assert(self.insts@ =~= old(self).insts@ + save_params_code(self.func, fr));
    }
}


// ---------------------------------------------------------------------------
// Instructions

/// The binary arithmetic and logic operations.
#[derive(Clone, Copy, PartialEq, Eq, Structural, Debug)]
pub enum BinKind {
    Add,
    Sub,
    Mul,
    Div,
    Rem,
    And,
    Or,
    Xor,
    Shl,
    Shr,
    Sar,
}

/// The machine instruction of a binary operation, in its 32-bit form when
/// the result is 32 bits wide.
pub open spec fn bin_minst(k: BinKind, narrow: bool, d: Reg, a: Reg, b: Reg) -> MInst {
    match k {
        BinKind::Add => if narrow { MInst::Addw(d, a, b) } else { MInst::Add(d, a, b) },
        BinKind::Sub => if narrow { MInst::Subw(d, a, b) } else { MInst::Sub(d, a, b) },
        BinKind::Mul => if narrow { MInst::Mulw(d, a, b) } else { MInst::Mul(d, a, b) },
        BinKind::Div => if narrow { MInst::Divw(d, a, b) } else { MInst::Div(d, a, b) },
        BinKind::Rem => if narrow { MInst::Remw(d, a, b) } else { MInst::Rem(d, a, b) },
        BinKind::And => MInst::And(d, a, b),
        BinKind::Or => MInst::Or(d, a, b),
        BinKind::Xor => MInst::Xor(d, a, b),
        BinKind::Shl => if narrow { MInst::Sllw(d, a, b) } else { MInst::Sll(d, a, b) },
        BinKind::Shr => if narrow { MInst::Srlw(d, a, b) } else { MInst::Srl(d, a, b) },
        BinKind::Sar => if narrow { MInst::Sraw(d, a, b) } else { MInst::Sra(d, a, b) },
    }
}

fn make_bin(k: BinKind, narrow: bool, d: Reg, a: Reg, b: Reg) -> (r: MInst)
    ensures
        r == bin_minst(k, narrow, d, a, b),
{
    match k {
        BinKind::Add => if narrow { MInst::Addw(d, a, b) } else { MInst::Add(d, a, b) },
        BinKind::Sub => if narrow { MInst::Subw(d, a, b) } else { MInst::Sub(d, a, b) },
        BinKind::Mul => if narrow { MInst::Mulw(d, a, b) } else { MInst::Mul(d, a, b) },
        BinKind::Div => if narrow { MInst::Divw(d, a, b) } else { MInst::Div(d, a, b) },
        BinKind::Rem => if narrow { MInst::Remw(d, a, b) } else { MInst::Rem(d, a, b) },
        BinKind::And => MInst::And(d, a, b),
        BinKind::Or => MInst::Or(d, a, b),
        BinKind::Xor => MInst::Xor(d, a, b),
        BinKind::Shl => if narrow { MInst::Sllw(d, a, b) } else { MInst::Sll(d, a, b) },
        BinKind::Shr => if narrow { MInst::Srlw(d, a, b) } else { MInst::Srl(d, a, b) },
        BinKind::Sar => if narrow { MInst::Sraw(d, a, b) } else { MInst::Sra(d, a, b) },
    }
}

/// The value is 32 bits wide.
pub open spec fn narrow(f: &Function, v: Value) -> bool {
    f.values@[v.0 as int].ty.spec_bit_width() == Some(32u32)
}

pub open spec fn binary_code(f: &Function, fr: Frame, a: Value, b: Value, res: Value, k: BinKind) -> Seq<MInst> {
    let o1 = operand_code(fr, a, Reg(5));
    let o2 = operand_code(fr, b, Reg(6));
    let d = dest_of(fr, res, Reg(5));
    o1.0 + o2.0 + seq![bin_minst(k, narrow(f, res), d, o1.1, o2.1)] + result_code(fr, res, d)
}

/// The code of a comparison into `d`.
pub open spec fn compare_code(op: CmpOp, d: Reg, a: Reg, b: Reg) -> Seq<MInst> {
    match op {
        CmpOp::Eq => seq![MInst::Xor(d, a, b), MInst::Sltiu(d, d, 1)],
        CmpOp::Ne => seq![MInst::Xor(d, a, b), MInst::Sltu(d, Reg(0), d)],
        CmpOp::Lt => seq![MInst::Slt(d, a, b)],
        CmpOp::Gt => seq![MInst::Slt(d, b, a)],
        CmpOp::Le => seq![MInst::Slt(d, b, a), MInst::Xori(d, d, 1)],
        CmpOp::Ge => seq![MInst::Slt(d, a, b), MInst::Xori(d, d, 1)],
        CmpOp::Ult => seq![MInst::Sltu(d, a, b)],
        CmpOp::Ugt => seq![MInst::Sltu(d, b, a)],
        CmpOp::Ule => seq![MInst::Sltu(d, b, a), MInst::Xori(d, d, 1)],
        CmpOp::Uge => seq![MInst::Sltu(d, a, b), MInst::Xori(d, d, 1)],
    }
}

/// The load of a type's width.
pub open spec fn load_minst(ty: Type, d: Reg, base: Reg, off: i32) -> MInst {
    match ty {
        Type::I1 | Type::I8 => MInst::Lb(d, base, off),
        Type::I16 => MInst::Lh(d, base, off),
        Type::I32 | Type::F32 => MInst::Lw(d, base, off),
        _ => MInst::Ld(d, base, off),
    }
}

/// The store of a type's width.
pub open spec fn store_minst(ty: Type, base: Reg, src: Reg, off: i32) -> MInst {
    match ty {
        Type::I1 | Type::I8 => MInst::Sb(base, src, off),
        Type::I16 => MInst::Sh(base, src, off),
        Type::I32 | Type::F32 => MInst::Sw(base, src, off),
        _ => MInst::Sd(base, src, off),
    }
}

fn make_load(ty: Type, d: Reg, base: Reg, off: i32) -> (r: MInst)
    ensures
        r == load_minst(ty, d, base, off),
{
    match ty {
        Type::I1 | Type::I8 => MInst::Lb(d, base, off),
        Type::I16 => MInst::Lh(d, base, off),
        Type::I32 | Type::F32 => MInst::Lw(d, base, off),
        _ => MInst::Ld(d, base, off),
    }
}

fn make_store(ty: Type, base: Reg, src: Reg, off: i32) -> (r: MInst)
    ensures
        r == store_minst(ty, base, src, off),
{
    match ty {
        Type::I1 | Type::I8 => MInst::Sb(base, src, off),
        Type::I16 => MInst::Sh(base, src, off),
        Type::I32 | Type::F32 => MInst::Sw(base, src, off),
        _ => MInst::Sd(base, src, off),
    }
}

/// The first phi input that comes from the block.
pub open spec fn incoming_from(ps: Seq<(Block, Value)>, pred: Block) -> Option<Value>
    decreases ps.len(),
{
    if ps.len() == 0 {
        None
    } else if ps[0].0 == pred {
        Some(ps[0].1)
    } else {
        incoming_from(ps.drop_first(), pred)
    }
}

/// For the phis among the instructions, (input from `pred`, result).
pub open spec fn edge_pairs(f: &Function, fr: Frame, pred: Block, ids: Seq<Inst>) -> Seq<(Value, Value)>
    decreases ids.len(),
{
    if ids.len() == 0 {
        seq![]
    } else {
        let prev = edge_pairs(f, fr, pred, ids.drop_last());
        let id = ids.last();
        match f.insts@[id.0 as int] {
            Instruction::Phi(ps) => match (incoming_from(ps@, pred), fr.results[id.0 as int]) {
                (Some(v), Some(r)) => prev.push((v, r)),
                _ => prev,
            },
            _ => prev,
        }
    }
}

pub open spec fn phi_count(f: &Function, ids: Seq<Inst>) -> nat
    decreases ids.len(),
{
    if ids.len() == 0 {
        0
    } else {
        phi_count(f, ids.drop_last()) + if f.insts@[ids.last().0 as int] is Phi { 1nat } else { 0nat }
    }
}

pub open spec fn edge_stores(fr: Frame, ps: Seq<(Value, Value)>, n: int) -> Seq<MInst>
    decreases n,
{
    if n <= 0 {
        seq![]
    } else {
        let o = operand_code(fr, ps[n - 1].0, Reg(5));
        edge_stores(fr, ps, n - 1) + o.0 + store_code(Reg(8), o.1, (fr.backup_offset + 8 * (n - 1)) as i32)
    }
}

pub open spec fn edge_loads(fr: Frame, ps: Seq<(Value, Value)>, n: int) -> Seq<MInst>
    decreases n,
{
    if n <= 0 {
        seq![]
    } else {
        edge_loads(fr, ps, n - 1) + load_code(Reg(5), Reg(8), (fr.backup_offset + 8 * (n - 1)) as i32)
            + result_code(fr, ps[n - 1].1, Reg(5))
    }
}

/// The copies into the phis of `target` on the edge from `pred`: all inputs
/// go to the backup area first, then each result is loaded and put in place.
pub open spec fn edge_code(f: &Function, fr: Frame, pred: Block, target: Block) -> Seq<MInst> {
    let ps = edge_pairs(f, fr, pred, f.blocks@[target.0 as int].insts@);
    edge_stores(fr, ps, ps.len() as int) + edge_loads(fr, ps, ps.len() as int)
}

/// A phi of `target` takes an input from `pred`.
pub open spec fn has_phis_from(f: &Function, target: Block, pred: Block) -> bool {
    exists|k: int| 0 <= k < f.blocks@[target.0 as int].insts@.len()
        && #[trigger] phi_takes_from(f.insts@[f.blocks@[target.0 as int].insts@[k].0 as int], pred)
}

pub open spec fn phi_takes_from(inst: Instruction, pred: Block) -> bool {
    match inst {
        Instruction::Phi(ps) => incoming_from(ps@, pred) is Some,
        _ => false,
    }
}

pub open spec fn arg_stores(fr: Frame, args: Seq<Value>, n: int) -> Seq<MInst>
    decreases n,
{
    if n <= 0 {
        seq![]
    } else {
        let o = operand_code(fr, args[n - 1], Reg(5));
        arg_stores(fr, args, n - 1) + o.0 + store_code(Reg(8), o.1, (fr.backup_offset + 8 * (n - 1)) as i32)
    }
}

/// The first eight arguments go to `a0`-`a7`, the others to the stack.
pub open spec fn arg_moves(fr: Frame, n: int) -> Seq<MInst>
    decreases n,
{
    if n <= 0 {
        seq![]
    } else {
        let i = n - 1;
        arg_moves(fr, n - 1) + if i < 8 {
            load_code(Reg((10 + i) as u8), Reg(8), (fr.backup_offset + 8 * i) as i32)
        } else {
            load_code(Reg(5), Reg(8), (fr.backup_offset + 8 * i) as i32) + store_code(Reg(2), Reg(5), (8 * (i - 8)) as i32)
        }
    }
}

/// The instruction computes a value, which it then needs a result for.
pub open spec fn needs_result(inst: Instruction) -> bool {
    !(inst is Store || inst is Jmp || inst is Br || inst is Ret || inst is Call || inst is Phi)
}

/// The code of one instruction of block `cur`, and the next free made-up label.
pub open spec fn inst_code(f: &Function, fr: Frame, cur: Block, id: Inst, label: u32) -> (Seq<MInst>, u32) {
    let res = fr.results[id.0 as int];
    let r = res->Some_0;
    match f.insts@[id.0 as int] {
        Instruction::Const(imm) => {
            let d = dest_of(fr, r, Reg(5));
            (seq![MInst::Li64(d, imm.spec_as_i64())] + result_code(fr, r, d), label)
        }
        Instruction::Add(a, b) => (binary_code(f, fr, a, b, r, BinKind::Add), label),
        Instruction::Sub(a, b) => (binary_code(f, fr, a, b, r, BinKind::Sub), label),
        Instruction::Mul(a, b) => (binary_code(f, fr, a, b, r, BinKind::Mul), label),
        Instruction::Div(a, b) => (binary_code(f, fr, a, b, r, BinKind::Div), label),
        Instruction::Rem(a, b) => (binary_code(f, fr, a, b, r, BinKind::Rem), label),
        Instruction::And(a, b) => (binary_code(f, fr, a, b, r, BinKind::And), label),
        Instruction::Or(a, b) => (binary_code(f, fr, a, b, r, BinKind::Or), label),
        Instruction::Xor(a, b) => (binary_code(f, fr, a, b, r, BinKind::Xor), label),
        Instruction::Shl(a, b) => (binary_code(f, fr, a, b, r, BinKind::Shl), label),
        Instruction::Shr(a, b) => (binary_code(f, fr, a, b, r, BinKind::Shr), label),
        Instruction::Sar(a, b) => (binary_code(f, fr, a, b, r, BinKind::Sar), label),
        Instruction::Neg(v) => {
            let o = operand_code(fr, v, Reg(5));
            let d = dest_of(fr, r, Reg(6));
            let op = if narrow(f, r) { MInst::Subw(d, Reg(0), o.1) } else { MInst::Sub(d, Reg(0), o.1) };
            (o.0 + seq![op] + result_code(fr, r, d), label)
        }
        Instruction::Not(v) => {
            let o = operand_code(fr, v, Reg(5));
            let d = dest_of(fr, r, Reg(6));
            (o.0 + seq![MInst::Xori(d, o.1, -1i32)] + result_code(fr, r, d), label)
        }
        Instruction::Cmp(op, a, b) => {
            let o1 = operand_code(fr, a, Reg(5));
            let o2 = operand_code(fr, b, Reg(6));
            let d = dest_of(fr, r, Reg(5));
            (o1.0 + o2.0 + compare_code(op, d, o1.1, o2.1) + result_code(fr, r, d), label)
        }
        Instruction::Alloca(_) => {
            let d = dest_of(fr, r, Reg(5));
            (add_imm_code(d, Reg(8), fr.alloca[id.0 as int]->Some_0) + result_code(fr, r, d), label)
        }
        Instruction::Load(ty, p, off) => {
            let o = operand_code(fr, p, Reg(5));
            let d = dest_of(fr, r, Reg(6));
            let mem = if fits12(off) {
                seq![load_minst(ty, d, o.1, off)]
            } else {
                seq![MInst::Li64(Reg(7), off as i64), MInst::Add(Reg(7), o.1, Reg(7)), load_minst(ty, d, Reg(7), 0)]
            };
            (o.0 + mem + result_code(fr, r, d), label)
        }
        Instruction::Store(v, p, off) => {
            let ov = operand_code(fr, v, Reg(5));
            let op = operand_code(fr, p, Reg(6));
            let ty = f.values@[v.0 as int].ty;
            let mem = if fits12(off) {
                seq![store_minst(ty, op.1, ov.1, off)]
            } else {
                seq![MInst::Li64(Reg(7), off as i64), MInst::Add(Reg(7), op.1, Reg(7)), store_minst(ty, Reg(7), ov.1, 0)]
            };
            (ov.0 + op.0 + mem, label)
        }
        Instruction::Jmp(t) => (edge_code(f, fr, cur, t) + seq![MInst::Jal(Reg(0), t)], label),
        Instruction::Br(c, t, e) => {
            let oc = operand_code(fr, c, Reg(5));
            if !has_phis_from(f, t, cur) && !has_phis_from(f, e, cur) {
                (oc.0 + seq![MInst::Bne(oc.1, Reg(0), t), MInst::Jal(Reg(0), e)], label)
            } else {
                let l = Block(label);
                (oc.0 + seq![MInst::Bne(oc.1, Reg(0), l)] + edge_code(f, fr, cur, e)
                    + seq![MInst::Jal(Reg(0), e), MInst::Label(l)] + edge_code(f, fr, cur, t)
                    + seq![MInst::Jal(Reg(0), t)], (label + 1) as u32)
            }
        }
        Instruction::Ret(Some(v)) => {
            let o = operand_code(fr, v, Reg(5));
            (o.0 + (if o.1 != Reg(10) { seq![MInst::Addi(Reg(10), o.1, 0)] } else { seq![] }) + epilogue_code(fr), label)
        }
        Instruction::Ret(None) => (epilogue_code(fr), label),
        Instruction::Call(name, args) => {
            let n = args@.len() as int;
            (arg_stores(fr, args@, n) + arg_moves(fr, n) + seq![MInst::Call(name)]
                + (if res is Some { result_code(fr, r, Reg(10)) } else { seq![] }), label)
        }
        Instruction::Phi(_) => (seq![], label),
    }
}


pub(crate) fn needs_result_exec(inst: &Instruction) -> (r: bool)
    ensures
        r == needs_result(*inst),
{
    match inst {
        Instruction::Store(_, _, _) | Instruction::Jmp(_) | Instruction::Br(_, _, _) | Instruction::Ret(_)
        | Instruction::Call(_, _) | Instruction::Phi(_) => false,
        _ => true,
    }
}

fn find_incoming(ps: &Vec<(Block, Value)>, pred: Block) -> (r: Option<Value>)
    ensures
        r == incoming_from(ps@, pred),
{
    let mut t: usize = 0;
    assert(ps@.subrange(0, ps@.len() as int) =~= ps@);
    while t < ps.len()
        invariant
            t <= ps@.len(),
            incoming_from(ps@, pred) == incoming_from(ps@.subrange(t as int, ps@.len() as int), pred),
        decreases ps@.len() - t,
    {
        assert(ps@.subrange(t as int, ps@.len() as int).drop_first() =~= ps@.subrange(t as int + 1, ps@.len() as int));
        assert(ps@.subrange(t as int, ps@.len() as int)[0] == ps@[t as int]);
        if ps[t].0 == pred {
            return Some(ps[t].1);
        }
        t = t + 1;
    }
    None
}

impl<'a> Lowerer<'a> {
    /// The lowering's standing facts: the function is closed, the frame
    /// fits, the result and `alloca` tables cover the instructions, and the
    /// backup area holds every parameter, phi copy and call argument.
    pub closed spec fn wf(&self) -> bool {
        let f = self.func;
        let fr = self.frame();
        &&& f.closed()
        &&& frame_ok(fr)
        &&& fr.results.len() == f.insts@.len()
        &&& forall|i: int| 0 <= i < f.insts@.len() ==> #[trigger] fr.results[i] == inst_result(f.values@, Inst(i as u32))
        &&& fr.alloca.len() == f.insts@.len()
        &&& forall|i: int| 0 <= i < f.insts@.len() && (#[trigger] f.insts@[i]) is Alloca ==> fr.alloca[i] is Some
        &&& f.params@.len() <= fr.backup_slots
        &&& forall|b: int| 0 <= b < f.blocks@.len() ==> phi_count(f, (#[trigger] f.blocks@[b]).insts@) <= fr.backup_slots
    }

    fn val_type(&self, val: Value) -> (r: Type)
        requires
            val.0 < self.func.values@.len(),
        ensures
            r == self.func.values@[val.0 as int].ty,
    {
        self.func.values.at(val).ty
    }

    fn lower_binary(&mut self, v1: Value, v2: Value, res: Value, k: BinKind)
        requires
            old(self).wf(),
            res.0 < old(self).func.values@.len(),
        ensures
            final(self).insts@ == old(self).insts@ + binary_code(old(self).func, old(self).frame(), v1, v2, res, k),
            final(self).same_frame(old(self)),
            final(self).next_synthetic_block_id == old(self).next_synthetic_block_id,
    {
        let ghost fr = self.frame();
        let r1 = self.load_operand(v1, Reg(crate::riscv::T0));
        let r2 = self.load_operand(v2, Reg(crate::riscv::T1));
        let dest = self.get_dest(res, Reg(crate::riscv::T0));
        let narrow = self.val_type(res).bit_width() == Some(32);
        self.insts.push(make_bin(k, narrow, dest, r1, r2));
        self.store_result(res, dest);
        assert(self.insts@ =~= old(self).insts@ + binary_code(self.func, fr, v1, v2, res, k));
    }

    fn has_phis_from(&self, target_block: Block, pred_block: Block) -> (r: bool)
        requires
            self.wf(),
            target_block.0 < self.func.blocks@.len(),
        ensures
            r == has_phis_from(self.func, target_block, pred_block),
    {
        let bd = self.func.blocks.at(target_block);
        let mut k: usize = 0;
        while k < bd.insts.len()
            invariant
                self.wf(),
                target_block.0 < self.func.blocks@.len(),
                *bd == self.func.blocks@[target_block.0 as int],
                k <= bd.insts@.len(),
                forall|j: int| 0 <= j < k ==> !(#[trigger] phi_takes_from(self.func.insts@[bd.insts@[j].0 as int], pred_block)),
            decreases bd.insts@.len() - k,
        {
            let id = bd.insts[k];
            assert(id.0 < self.func.insts@.len());
            if let Instruction::Phi(ps) = self.func.insts.at(id) {
                if find_incoming(ps, pred_block).is_some() {
                    assert(phi_takes_from(self.func.insts@[bd.insts@[k as int].0 as int], pred_block));
                    return true;
                }
            }
            k = k + 1;
        }
        false
    }

    fn lower_edge_phis(&mut self, pred_block: Block, target_block: Block)
        requires
            old(self).wf(),
            target_block.0 < old(self).func.blocks@.len(),
        ensures
            final(self).insts@ == old(self).insts@ + edge_code(old(self).func, old(self).frame(), pred_block, target_block),
            final(self).same_frame(old(self)),
            final(self).next_synthetic_block_id == old(self).next_synthetic_block_id,
    {
        let ghost fr = self.frame();
        let func = self.func;
        let bd = func.blocks.at(target_block);
        let ghost ids = bd.insts@;
        let mut phi_pairs: Vec<(Value, Value)> = Vec::new();
        let mut k: usize = 0;
        while k < bd.insts.len()
            invariant
                self.wf(),
                self.frame() == fr,
                self.func == func,
                target_block.0 < func.blocks@.len(),
                *bd == func.blocks@[target_block.0 as int],
                ids == bd.insts@,
                k <= ids.len(),
                phi_pairs@ == edge_pairs(func, fr, pred_block, ids.subrange(0, k as int)),
                phi_pairs@.len() <= phi_count(func, ids.subrange(0, k as int)),
            decreases ids.len() - k,
        {
            assert(ids.subrange(0, k as int + 1).drop_last() =~= ids.subrange(0, k as int));
            let id = bd.insts[k];
            assert(id.0 < func.insts@.len());
            if let Instruction::Phi(ps) = func.insts.at(id) {
                let found = find_incoming(ps, pred_block);
                let res = self.inst_to_val[id.0 as usize];
                match (found, res) {
                    (Some(v), Some(r)) => phi_pairs.push((v, r)),
                    _ => {}
                }
            }
            k = k + 1;
        }
        assert(ids.subrange(0, ids.len() as int) =~= ids);
        assert(phi_pairs@.len() <= fr.backup_slots);
        let ghost ps = phi_pairs@;
        let n = phi_pairs.len();
        let ghost start = self.insts@;
        let mut i: usize = 0;
        while i < n
            invariant
                self.wf(),
                self.frame() == fr,
                self.func == func,
                phi_pairs@ == ps,
                n == ps.len(),
                n <= fr.backup_slots,
                i <= n,
                self.insts@ == start + edge_stores(fr, ps, i as int),
                self.next_synthetic_block_id == old(self).next_synthetic_block_id,
                self.same_frame(old(self)),
            decreases n - i,
        {
            let r = self.load_operand(phi_pairs[i].0, Reg(crate::riscv::T0));
            let off = self.backup_offset + 8 * (i as i32);
            self.emit_store_reg_offset(Reg(crate::riscv::FP), r, off);
            i = i + 1;
            assert(self.insts@ =~= start + edge_stores(fr, ps, i as int));
        }
        let ghost mid = self.insts@;
        let mut i: usize = 0;
        while i < n
            invariant
                self.wf(),
                self.frame() == fr,
                self.func == func,
                phi_pairs@ == ps,
                n == ps.len(),
                n <= fr.backup_slots,
                i <= n,
                self.insts@ == mid + edge_loads(fr, ps, i as int),
                self.next_synthetic_block_id == old(self).next_synthetic_block_id,
                self.same_frame(old(self)),
            decreases n - i,
        {
            let off = self.backup_offset + 8 * (i as i32);
            self.emit_load_reg_offset(Reg(crate::riscv::T0), Reg(crate::riscv::FP), off);
            self.store_result(phi_pairs[i].1, Reg(crate::riscv::T0));
            i = i + 1;
            assert(self.insts@ =~= mid + edge_loads(fr, ps, i as int));
        }
        assert(self.insts@ =~= old(self).insts@ + edge_code(func, fr, pred_block, target_block));
    }
}


impl<'a> Lowerer<'a> {
    fn lower_inst(&mut self, current_block: Block, inst_id: Inst)
        requires
            old(self).wf(),
            inst_id.0 < old(self).func.insts@.len(),
            needs_result(old(self).func.insts@[inst_id.0 as int]) ==> old(self).frame().results[inst_id.0 as int] is Some,
            old(self).func.insts@[inst_id.0 as int] matches Instruction::Call(_, args) ==> args@.len() <= old(self).frame().backup_slots,
            old(self).next_synthetic_block_id < u32::MAX,
        ensures
            (final(self).insts@, final(self).next_synthetic_block_id) == ({
                let c = inst_code(old(self).func, old(self).frame(), current_block, inst_id, old(self).next_synthetic_block_id);
                (old(self).insts@ + c.0, c.1)
            }),
            final(self).same_frame(old(self)),
    {
        if needs_result_exec(self.func.insts.at(inst_id)) {
            self.lower_value_inst(current_block, inst_id);
        } else {
            self.lower_effect_inst(current_block, inst_id);
        }
    }

    #[verifier::rlimit(100)]
    fn lower_value_inst(&mut self, current_block: Block, inst_id: Inst)
        requires
            old(self).wf(),
            inst_id.0 < old(self).func.insts@.len(),
            needs_result(old(self).func.insts@[inst_id.0 as int]),
            old(self).frame().results[inst_id.0 as int] is Some,
        ensures
            (final(self).insts@, final(self).next_synthetic_block_id) == ({
                let c = inst_code(old(self).func, old(self).frame(), current_block, inst_id, old(self).next_synthetic_block_id);
                (old(self).insts@ + c.0, c.1)
            }),
            final(self).same_frame(old(self)),
    {
        let ghost fr = self.frame();
        let func = self.func;
        let inst = func.insts.at(inst_id);
        let res = self.inst_to_val[inst_id.0 as usize].unwrap();
        let ghost c = inst_code(func, fr, current_block, inst_id, old(self).next_synthetic_block_id);
        proof {
            lemma_inst_result(func.values@, inst_id);
            assert(crate::parser::inst_refs_in(*inst, func.values@.len() as int, func.blocks@.len() as int));
        }
        match inst {
            Instruction::Add(v1, v2) => self.lower_binary(*v1, *v2, res, BinKind::Add),
            Instruction::Sub(v1, v2) => self.lower_binary(*v1, *v2, res, BinKind::Sub),
            Instruction::Mul(v1, v2) => self.lower_binary(*v1, *v2, res, BinKind::Mul),
            Instruction::Div(v1, v2) => self.lower_binary(*v1, *v2, res, BinKind::Div),
            Instruction::Rem(v1, v2) => self.lower_binary(*v1, *v2, res, BinKind::Rem),
            Instruction::And(v1, v2) => self.lower_binary(*v1, *v2, res, BinKind::And),
            Instruction::Or(v1, v2) => self.lower_binary(*v1, *v2, res, BinKind::Or),
            Instruction::Xor(v1, v2) => self.lower_binary(*v1, *v2, res, BinKind::Xor),
            Instruction::Shl(v1, v2) => self.lower_binary(*v1, *v2, res, BinKind::Shl),
            Instruction::Shr(v1, v2) => self.lower_binary(*v1, *v2, res, BinKind::Shr),
            Instruction::Sar(v1, v2) => self.lower_binary(*v1, *v2, res, BinKind::Sar),
            Instruction::Const(_) | Instruction::Neg(_) | Instruction::Not(_) | Instruction::Cmp(_, _, _) => {
                self.lower_simple_value(current_block, inst_id)
            }
            Instruction::Alloca(_) | Instruction::Load(_, _, _) => self.lower_memory_value(current_block, inst_id),
            _ => {}
        }
    }

    #[verifier::rlimit(100)]
    fn lower_simple_value(&mut self, current_block: Block, inst_id: Inst)
        requires
            old(self).wf(),
            inst_id.0 < old(self).func.insts@.len(),
            needs_result(old(self).func.insts@[inst_id.0 as int]),
            old(self).frame().results[inst_id.0 as int] is Some,
            old(self).func.insts@[inst_id.0 as int] is Const || old(self).func.insts@[inst_id.0 as int] is Neg
                || old(self).func.insts@[inst_id.0 as int] is Not || old(self).func.insts@[inst_id.0 as int] is Cmp,
        ensures
            (final(self).insts@, final(self).next_synthetic_block_id) == ({
                let c = inst_code(old(self).func, old(self).frame(), current_block, inst_id, old(self).next_synthetic_block_id);
                (old(self).insts@ + c.0, c.1)
            }),
            final(self).same_frame(old(self)),
    {
        let ghost fr = self.frame();
        let func = self.func;
        let inst = func.insts.at(inst_id);
        let res = self.inst_to_val[inst_id.0 as usize].unwrap();
        let ghost c = inst_code(func, fr, current_block, inst_id, old(self).next_synthetic_block_id);
        proof {
            lemma_inst_result(func.values@, inst_id);
            assert(crate::parser::inst_refs_in(*inst, func.values@.len() as int, func.blocks@.len() as int));
        }
        match inst {
            Instruction::Const(imm) => {
                let dest = self.get_dest(res, Reg(crate::riscv::T0));
                self.insts.push(MInst::Li64(dest, imm.as_i64()));
                self.store_result(res, dest);
                assert(self.insts@ =~= old(self).insts@ + c.0);
            }
            Instruction::Neg(val) => {
                let r1 = self.load_operand(*val, Reg(crate::riscv::T0));
                let dest = self.get_dest(res, Reg(crate::riscv::T1));
                if self.val_type(res).bit_width() == Some(32) {
                    self.insts.push(MInst::Subw(dest, Reg(crate::riscv::ZERO), r1));
                } else {
                    self.insts.push(MInst::Sub(dest, Reg(crate::riscv::ZERO), r1));
                }
                self.store_result(res, dest);
                assert(self.insts@ =~= old(self).insts@ + c.0);
            }
            Instruction::Not(val) => {
                let r1 = self.load_operand(*val, Reg(crate::riscv::T0));
                let dest = self.get_dest(res, Reg(crate::riscv::T1));
                self.insts.push(MInst::Xori(dest, r1, -1));
                self.store_result(res, dest);
                assert(self.insts@ =~= old(self).insts@ + c.0);
            }
            Instruction::Cmp(op, v1, v2) => {
                let r1 = self.load_operand(*v1, Reg(crate::riscv::T0));
                let r2 = self.load_operand(*v2, Reg(crate::riscv::T1));
                let dest = self.get_dest(res, Reg(crate::riscv::T0));
                self.emit_compare(*op, dest, r1, r2);
                self.store_result(res, dest);
                assert(self.insts@ =~= old(self).insts@ + c.0);
            }
            _ => {}
        }
    }

    #[verifier::rlimit(100)]
    fn lower_memory_value(&mut self, current_block: Block, inst_id: Inst)
        requires
            old(self).wf(),
            inst_id.0 < old(self).func.insts@.len(),
            needs_result(old(self).func.insts@[inst_id.0 as int]),
            old(self).frame().results[inst_id.0 as int] is Some,
            old(self).func.insts@[inst_id.0 as int] is Alloca || old(self).func.insts@[inst_id.0 as int] is Load,
        ensures
            (final(self).insts@, final(self).next_synthetic_block_id) == ({
                let c = inst_code(old(self).func, old(self).frame(), current_block, inst_id, old(self).next_synthetic_block_id);
                (old(self).insts@ + c.0, c.1)
            }),
            final(self).same_frame(old(self)),
    {
        let ghost fr = self.frame();
        let func = self.func;
        let inst = func.insts.at(inst_id);
        let res = self.inst_to_val[inst_id.0 as usize].unwrap();
        let ghost c = inst_code(func, fr, current_block, inst_id, old(self).next_synthetic_block_id);
        proof {
            lemma_inst_result(func.values@, inst_id);
            assert(crate::parser::inst_refs_in(*inst, func.values@.len() as int, func.blocks@.len() as int));
        }
        match inst {
            Instruction::Alloca(_) => {
                let buf_offset = self.alloca_offsets[inst_id.0 as usize].unwrap();
                let dest = self.get_dest(res, Reg(crate::riscv::T0));
                self.emit_add_imm(dest, Reg(crate::riscv::FP), buf_offset);
                self.store_result(res, dest);
                assert(self.insts@ =~= old(self).insts@ + c.0);
            }
            Instruction::Load(ty, ptr_val, offset) => {
                let r_ptr = self.load_operand(*ptr_val, Reg(crate::riscv::T0));
                let dest = self.get_dest(res, Reg(crate::riscv::T1));
                if -2048 <= *offset && *offset <= 2047 {
                    self.insts.push(make_load(*ty, dest, r_ptr, *offset));
                } else {
                    self.insts.push(MInst::Li64(Reg(crate::riscv::T2), *offset as i64));
                    self.insts.push(MInst::Add(Reg(crate::riscv::T2), r_ptr, Reg(crate::riscv::T2)));
                    self.insts.push(make_load(*ty, dest, Reg(crate::riscv::T2), 0));
                }
                self.store_result(res, dest);
                assert(self.insts@ =~= old(self).insts@ + c.0);
            }
            _ => {}
        }
    }

    #[verifier::rlimit(100)]
    fn lower_effect_inst(&mut self, current_block: Block, inst_id: Inst)
        requires
            old(self).wf(),
            inst_id.0 < old(self).func.insts@.len(),
            !needs_result(old(self).func.insts@[inst_id.0 as int]),
            old(self).func.insts@[inst_id.0 as int] matches Instruction::Call(_, args) ==> args@.len() <= old(self).frame().backup_slots,
            old(self).next_synthetic_block_id < u32::MAX,
        ensures
            (final(self).insts@, final(self).next_synthetic_block_id) == ({
                let c = inst_code(old(self).func, old(self).frame(), current_block, inst_id, old(self).next_synthetic_block_id);
                (old(self).insts@ + c.0, c.1)
            }),
            final(self).same_frame(old(self)),
    {
        let ghost fr = self.frame();
        let func = self.func;
        let inst = func.insts.at(inst_id);
        let res_val = self.inst_to_val[inst_id.0 as usize];
        let ghost c = inst_code(func, fr, current_block, inst_id, old(self).next_synthetic_block_id);
        proof {
            lemma_inst_result(func.values@, inst_id);
            assert(crate::parser::inst_refs_in(*inst, func.values@.len() as int, func.blocks@.len() as int));
        }
        match inst {
            Instruction::Store(val, ptr_val, offset) => {
                assert(inst.operands()[0] == *val);
                let r_val = self.load_operand(*val, Reg(crate::riscv::T0));
                let r_ptr = self.load_operand(*ptr_val, Reg(crate::riscv::T1));
                let ty = self.val_type(*val);
                if -2048 <= *offset && *offset <= 2047 {
                    self.insts.push(make_store(ty, r_ptr, r_val, *offset));
                } else {
                    self.insts.push(MInst::Li64(Reg(crate::riscv::T2), *offset as i64));
                    self.insts.push(MInst::Add(Reg(crate::riscv::T2), r_ptr, Reg(crate::riscv::T2)));
                    self.insts.push(make_store(ty, Reg(crate::riscv::T2), r_val, 0));
                }
                assert(self.insts@ =~= old(self).insts@ + c.0);
            }
            Instruction::Jmp(target) => {
                assert(crate::parser::inst_blocks(*inst)[0] == *target);
                self.lower_edge_phis(current_block, *target);
                self.insts.push(MInst::Jal(Reg(crate::riscv::ZERO), *target));
                assert(self.insts@ =~= old(self).insts@ + c.0);
            }
            Instruction::Br(cond_val, true_block, false_block) => {
                assert(crate::parser::inst_blocks(*inst)[0] == *true_block);
                assert(crate::parser::inst_blocks(*inst)[1] == *false_block);
                self.lower_br(current_block, *cond_val, *true_block, *false_block);
            }
            Instruction::Ret(opt_val) => {
                if let Some(val) = opt_val {
                    let r = self.load_operand(*val, Reg(crate::riscv::T0));
                    if r != Reg(crate::riscv::A0) {
                        self.insts.push(MInst::mv(Reg(crate::riscv::A0), r));
                    }
                }
                self.emit_epilogue();
                assert(self.insts@ =~= old(self).insts@ + c.0);
            }
            Instruction::Call(name, args) => {
                self.emit_call_args(args);
                self.insts.push(MInst::Call(name.clone()));
                if let Some(res) = res_val {
                    self.store_result(res, Reg(crate::riscv::A0));
                }
                assert(self.insts@ =~= old(self).insts@ + c.0);
            }
            Instruction::Phi(_) => {
                assert(self.insts@ =~= old(self).insts@ + c.0);
            }
            _ => {}
        }
    }

    fn lower_br(&mut self, current_block: Block, cond_val: Value, true_block: Block, false_block: Block)
        requires
            old(self).wf(),
            true_block.0 < old(self).func.blocks@.len(),
            false_block.0 < old(self).func.blocks@.len(),
            old(self).next_synthetic_block_id < u32::MAX,
        ensures
            final(self).same_frame(old(self)),
            ({
                let f = old(self).func;
                let fr = old(self).frame();
                let label = old(self).next_synthetic_block_id;
                let oc = operand_code(fr, cond_val, Reg(5));
                if !has_phis_from(f, true_block, current_block) && !has_phis_from(f, false_block, current_block) {
                    final(self).insts@ == old(self).insts@ + oc.0 + seq![MInst::Bne(oc.1, Reg(0), true_block), MInst::Jal(Reg(0), false_block)]
                        && final(self).next_synthetic_block_id == label
                } else {
                    let l = Block(label);
                    final(self).insts@ == old(self).insts@ + (oc.0 + seq![MInst::Bne(oc.1, Reg(0), l)] + edge_code(f, fr, current_block, false_block)
                        + seq![MInst::Jal(Reg(0), false_block), MInst::Label(l)] + edge_code(f, fr, current_block, true_block)
                        + seq![MInst::Jal(Reg(0), true_block)])
                        && final(self).next_synthetic_block_id == label + 1
                }
            }),
    {
        let ghost fr = self.frame();
        let r_cond = self.load_operand(cond_val, Reg(crate::riscv::T0));
        let has_true_phis = self.has_phis_from(true_block, current_block);
        let has_false_phis = self.has_phis_from(false_block, current_block);
        if !has_true_phis && !has_false_phis {
            self.insts.push(MInst::Bne(r_cond, Reg(crate::riscv::ZERO), true_block));
            self.insts.push(MInst::Jal(Reg(crate::riscv::ZERO), false_block));
            assert(self.insts@ =~= old(self).insts@ + operand_code(fr, cond_val, Reg(5)).0
                + seq![MInst::Bne(r_cond, Reg(0), true_block), MInst::Jal(Reg(0), false_block)]);
        } else {
            let true_label = Block(self.next_synthetic_block_id);
            self.next_synthetic_block_id = self.next_synthetic_block_id + 1;
            self.insts.push(MInst::Bne(r_cond, Reg(crate::riscv::ZERO), true_label));
            self.lower_edge_phis(current_block, false_block);
            self.insts.push(MInst::Jal(Reg(crate::riscv::ZERO), false_block));
            self.insts.push(MInst::Label(true_label));
            self.lower_edge_phis(current_block, true_block);
            self.insts.push(MInst::Jal(Reg(crate::riscv::ZERO), true_block));
            let ghost f = old(self).func;
            assert(self.insts@ =~= old(self).insts@ + (operand_code(fr, cond_val, Reg(5)).0 + seq![MInst::Bne(r_cond, Reg(0), true_label)]
                + edge_code(f, fr, current_block, false_block)
                + seq![MInst::Jal(Reg(0), false_block), MInst::Label(true_label)] + edge_code(f, fr, current_block, true_block)
                + seq![MInst::Jal(Reg(0), true_block)]));
        }
    }

    fn emit_compare(&mut self, op: CmpOp, dest: Reg, r1: Reg, r2: Reg)
        ensures
            final(self).insts@ == old(self).insts@ + compare_code(op, dest, r1, r2),
            final(self).same_frame(old(self)),
            final(self).next_synthetic_block_id == old(self).next_synthetic_block_id,
    {
        let z = Reg(crate::riscv::ZERO);
        match op {
            CmpOp::Eq => {
                self.insts.push(MInst::Xor(dest, r1, r2));
                self.insts.push(MInst::Sltiu(dest, dest, 1));
            }
            CmpOp::Ne => {
                self.insts.push(MInst::Xor(dest, r1, r2));
                self.insts.push(MInst::Sltu(dest, z, dest));
            }
            CmpOp::Lt => self.insts.push(MInst::Slt(dest, r1, r2)),
            CmpOp::Gt => self.insts.push(MInst::Slt(dest, r2, r1)),
            CmpOp::Le => {
                self.insts.push(MInst::Slt(dest, r2, r1));
                self.insts.push(MInst::Xori(dest, dest, 1));
            }
            CmpOp::Ge => {
                self.insts.push(MInst::Slt(dest, r1, r2));
                self.insts.push(MInst::Xori(dest, dest, 1));
            }
            CmpOp::Ult => self.insts.push(MInst::Sltu(dest, r1, r2)),
            CmpOp::Ugt => self.insts.push(MInst::Sltu(dest, r2, r1)),
            CmpOp::Ule => {
                self.insts.push(MInst::Sltu(dest, r2, r1));
                self.insts.push(MInst::Xori(dest, dest, 1));
            }
            CmpOp::Uge => {
                self.insts.push(MInst::Sltu(dest, r1, r2));
                self.insts.push(MInst::Xori(dest, dest, 1));
            }
        }
        assert(self.insts@ =~= old(self).insts@ + compare_code(op, dest, r1, r2));
    }

    fn emit_call_args(&mut self, args: &Vec<Value>)
        requires
            old(self).wf(),
            args@.len() <= old(self).frame().backup_slots,
        ensures
            final(self).insts@ == old(self).insts@ + arg_stores(old(self).frame(), args@, args@.len() as int)
                + arg_moves(old(self).frame(), args@.len() as int),
            final(self).same_frame(old(self)),
            final(self).next_synthetic_block_id == old(self).next_synthetic_block_id,
    {
        let ghost fr = self.frame();
        let n = args.len();
        let mut i: usize = 0;
        while i < n
            invariant
                self.wf(),
                self.frame() == fr,
                n == args@.len(),
                n <= fr.backup_slots,
                i <= n,
                self.insts@ == old(self).insts@ + arg_stores(fr, args@, i as int),
                self.next_synthetic_block_id == old(self).next_synthetic_block_id,
                self.same_frame(old(self)),
            decreases n - i,
        {
            let r = self.load_operand(args[i], Reg(crate::riscv::T0));
            let off = self.backup_offset + 8 * (i as i32);
            self.emit_store_reg_offset(Reg(crate::riscv::FP), r, off);
            i = i + 1;
            assert(self.insts@ =~= old(self).insts@ + arg_stores(fr, args@, i as int));
        }
        let ghost mid = self.insts@;
        let mut i: usize = 0;
        while i < n
            invariant
                self.wf(),
                self.frame() == fr,
                n == args@.len(),
                n <= fr.backup_slots,
                i <= n,
                self.insts@ == mid + arg_moves(fr, i as int),
                self.next_synthetic_block_id == old(self).next_synthetic_block_id,
                self.same_frame(old(self)),
            decreases n - i,
        {
            let off = self.backup_offset + 8 * (i as i32);
            if i < 8 {
                let reg = Reg(10 + i as u8);
                self.emit_load_reg_offset(reg, Reg(crate::riscv::FP), off);
            } else {
                self.emit_load_reg_offset(Reg(crate::riscv::T0), Reg(crate::riscv::FP), off);
                let so = 8 * (i as i32 - 8);
                self.emit_store_reg_offset(Reg(crate::riscv::SP), Reg(crate::riscv::T0), so);
            }
            i = i + 1;
            assert(self.insts@ =~= mid + arg_moves(fr, i as int));
        }
    }
}


// ---------------------------------------------------------------------------
// The frame

pub open spec fn reg_order() -> spec_fn(Reg, Reg) -> bool {
    |a: Reg, b: Reg| a.0 <= b.0
}

/// The callee-saved registers to save, in increasing number.
pub open spec fn sorted_callee(ra: &RegAllocResult) -> Seq<Reg> {
    ra.used_callee_saved@.sort_by(reg_order())
}

pub open spec fn max_nat(a: nat, b: nat) -> nat {
    if a >= b { a } else { b }
}

/// The most phis of any of the first `n` blocks.
pub open spec fn max_phis(f: &Function, n: int) -> nat
    decreases n,
{
    if n <= 0 { 0 } else { max_nat(max_phis(f, n - 1), phi_count(f, f.blocks@[n - 1].insts@)) }
}

pub open spec fn call_args_in(f: &Function, ids: Seq<Inst>) -> nat
    decreases ids.len(),
{
    if ids.len() == 0 {
        0
    } else {
        let m = call_args_in(f, ids.drop_last());
        match f.insts@[ids.last().0 as int] {
            Instruction::Call(_, args) => max_nat(m, args@.len()),
            _ => m,
        }
    }
}

/// The most arguments of any call in the first `n` blocks.
pub open spec fn max_call_args(f: &Function, n: int) -> nat
    decreases n,
{
    if n <= 0 { 0 } else { max_nat(max_call_args(f, n - 1), call_args_in(f, f.blocks@[n - 1].insts@)) }
}

/// The entries of the backup area: at least 16, and enough for the
/// parameters, the phis of any block and the arguments of any call.
pub open spec fn backup_slot_count(f: &Function) -> nat {
    let nb = f.blocks@.len() as int;
    max_nat(max_nat(max_nat(16, f.params@.len()), max_phis(f, nb)), max_call_args(f, nb))
}

pub open spec fn alloca_count(insts: Seq<Instruction>) -> nat
    decreases insts.len(),
{
    if insts.len() == 0 { 0 } else { alloca_count(insts.drop_last()) + if insts.last() is Alloca { 1nat } else { 0nat } }
}

/// Each `alloca` takes the next 64 bytes below `start`.
pub open spec fn alloca_table(insts: Seq<Instruction>, start: int) -> Seq<Option<i32>> {
    Seq::new(insts.len(), |i: int| if insts[i] is Alloca {
        Some((start - 64 * alloca_count(insts.subrange(0, i + 1))) as i32)
    } else {
        None
    })
}

/// The bytes the frame needs below the frame pointer.
pub open spec fn frame_need(f: &Function, ra: &RegAllocResult) -> int {
    16 + 8 * ra.used_callee_saved@.len() + 8 * ra.num_spill_slots + 8 * backup_slot_count(f) + 64 * alloca_count(f.insts@)
}

pub open spec fn round16(n: int) -> i32 {
    ((n + 15) as i32) & !15i32
}

/// The frame of a function for an allocation.
pub open spec fn frame_of(f: &Function, ra: &RegAllocResult) -> Frame {
    let callee = sorted_callee(ra);
    let slots = backup_slot_count(f);
    let backup = -16 - 8 * callee.len() - 8 * ra.num_spill_slots - 8 * slots;
    Frame {
        allocs: ra.allocations@,
        callee,
        alloca: alloca_table(f.insts@, backup),
        results: Seq::new(f.insts@.len(), |i: int| inst_result(f.values@, Inst(i as u32))),
        frame_size: round16(64 * alloca_count(f.insts@) - backup),
        backup_offset: backup as i32,
        backup_slots: slots as int,
    }
}


proof fn lemma_max_phis(f: &Function, n: int, b: int)
    requires
        0 <= b < n,
    ensures
        phi_count(f, f.blocks@[b].insts@) <= max_phis(f, n),
    decreases n,
{
    if b < n - 1 {
        lemma_max_phis(f, n - 1, b);
    }
}

proof fn lemma_call_args_in(f: &Function, ids: Seq<Inst>, k: int)
    requires
        0 <= k < ids.len(),
    ensures
        f.insts@[ids[k].0 as int] matches Instruction::Call(_, args) ==> args@.len() <= call_args_in(f, ids),
    decreases ids.len(),
{
    if k < ids.len() - 1 {
        lemma_call_args_in(f, ids.drop_last(), k);
    }
}

proof fn lemma_max_call_args(f: &Function, n: int, b: int)
    requires
        0 <= b < n,
    ensures
        call_args_in(f, f.blocks@[b].insts@) <= max_call_args(f, n),
    decreases n,
{
    if b < n - 1 {
        lemma_max_call_args(f, n - 1, b);
    }
}

proof fn lemma_alloca_count_prefix(s: Seq<Instruction>, i: int)
    requires
        0 <= i <= s.len(),
    ensures
        alloca_count(s.subrange(0, i)) <= alloca_count(s),
    decreases s.len() - i,
{
    if i < s.len() {
        lemma_alloca_count_prefix(s, i + 1);
        assert(s.subrange(0, i + 1).drop_last() =~= s.subrange(0, i));
    } else {
        assert(s.subrange(0, i) =~= s);
    }
}

/// The number of `alloca` instructions of the function.
pub(crate) fn alloca_total(func: &Function) -> (r: usize)
    ensures
        r == alloca_count(func.insts@),
{
    let insts = func.insts.as_slice();
    let ghost all = func.insts@;
    let mut n: usize = 0;
    let mut i: usize = 0;
    proof { lemma_alloca_count_prefix(all, 0); }
    while i < insts.len()
        invariant
            insts@ == all,
            i <= all.len(),
            n == alloca_count(all.subrange(0, i as int)),
            alloca_count(all.subrange(0, i as int)) <= i,
        decreases all.len() - i,
    {
        assert(all.subrange(0, i as int + 1).drop_last() =~= all.subrange(0, i as int));
        if let Instruction::Alloca(_) = &insts[i] {
            n = n + 1;
        }
        i = i + 1;
    }
    assert(all.subrange(0, all.len() as int) =~= all);
    n
}

pub proof fn lemma_alloca_count_bound(s: Seq<Instruction>)
    ensures
        alloca_count(s) <= s.len(),
    decreases s.len(),
{
    if s.len() > 0 {
        lemma_alloca_count_bound(s.drop_last());
    }
}

proof fn lemma_round16(x: i32)
    requires
        0 <= x <= i32::MAX - 15,
    ensures
        x <= ((x + 15) as i32) & !15i32 <= x + 15,
{
    assert(x <= ((x + 15) as i32) & !15i32 <= x + 15) by (bit_vector)
        requires 0 <= x <= i32::MAX - 15;
}

fn sort_regs(v: &Vec<Reg>) -> (r: Vec<Reg>)
    ensures
        r@ == v@.sort_by(reg_order()),
{
    let ghost leq = reg_order();
    proof {
        assert(vstd::relations::total_ordering(leq)) by {
            assert forall|x: Reg, y: Reg| #[trigger] leq(x, y) && #[trigger] leq(y, x) implies x == y by {
                assert(x.0 == y.0);
            }
        }
    }
    let mut s: Vec<Reg> = Vec::new();
    let mut i: usize = 0;
    assert(v@.subrange(0, 0) =~= s@);
    while i < v.len()
        invariant
            leq == reg_order(),
            vstd::relations::total_ordering(leq),
            i <= v@.len(),
            vstd::relations::sorted_by(s@, leq),
            s@.to_multiset() == v@.subrange(0, i as int).to_multiset(),
        decreases v@.len() - i,
    {
        let x = v[i];
        let mut p: usize = 0;
        while p < s.len() && s[p].0 <= x.0
            invariant
                p <= s@.len(),
                forall|q: int| 0 <= q < p ==> (#[trigger] s@[q]).0 <= x.0,
            decreases s@.len() - p,
        {
            p = p + 1;
        }
        let ghost old_s = s@;
        s.insert(p, x);
        proof {
            vstd::seq_lib::to_multiset_insert(old_s, p as int, x);
            assert(v@.subrange(0, i as int + 1) =~= v@.subrange(0, i as int).push(x));
            v@.subrange(0, i as int).to_multiset_ensures();
            assert forall|a: int, b: int| 0 <= a < b < s@.len() implies #[trigger] leq(s@[a], s@[b]) by {
                if a < p && b < p {
                    assert(leq(old_s[a], old_s[b]));
                } else if a < p && b > p {
                    assert(leq(old_s[a], old_s[b - 1]));
                } else if a == p && b > p {
                    if p < old_s.len() {
                        assert(!(old_s[p as int].0 <= x.0));
                    }
                    assert(leq(old_s[p as int], old_s[b - 1]) || b - 1 == p);
                } else if a > p {
                    assert(leq(old_s[a - 1], old_s[b - 1]));
                }
            }
        }
        i = i + 1;
    }
    proof {
        assert(v@.subrange(0, v@.len() as int) =~= v@);
        v@.lemma_sort_by_ensures(leq);
        vstd::seq_lib::lemma_sorted_unique(s@, v@.sort_by(leq), leq);
    }
    s
}

pub(crate) fn backup_slots_of(func: &Function) -> (r: usize)
    requires
        func.wf(),
    ensures
        r == backup_slot_count(func),
{
    let nb = func.blocks.len();
    let mut max_phis_v: usize = 0;
    let mut max_args: usize = 0;
    let mut b: usize = 0;
    while b < nb
        invariant
            func.wf(),
            nb == func.blocks@.len(),
            b <= nb,
            max_phis_v == max_phis(func, b as int),
            max_args == max_call_args(func, b as int),
        decreases nb - b,
    {
        let bd = func.blocks.at(Block(b as u32));
        let ghost ids = bd.insts@;
        let mut phis: usize = 0;
        let mut args_m: usize = 0;
        let mut k: usize = 0;
        while k < bd.insts.len()
            invariant
                func.wf(),
                b < nb,
                nb == func.blocks@.len(),
                *bd == func.blocks@[b as int],
                ids == bd.insts@,
                k <= ids.len(),
                phis == phi_count(func, ids.subrange(0, k as int)),
                args_m == call_args_in(func, ids.subrange(0, k as int)),
                phis <= k,
            decreases ids.len() - k,
        {
            assert(ids.subrange(0, k as int + 1).drop_last() =~= ids.subrange(0, k as int));
            let id = bd.insts[k];
            assert(id.0 < func.insts@.len());
            match func.insts.get(id) {
                Some(Instruction::Phi(_)) => phis = phis + 1,
                Some(Instruction::Call(_, args)) => {
                    if args.len() > args_m {
                        args_m = args.len();
                    }
                }
                _ => {}
            }
            k = k + 1;
        }
        assert(ids.subrange(0, ids.len() as int) =~= ids);
        assert(Block(b as u32).0 == b);
        if phis > max_phis_v {
            max_phis_v = phis;
        }
        if args_m > max_args {
            max_args = args_m;
        }
        b = b + 1;
    }
    let mut r: usize = 16;
    if func.params.len() > r {
        r = func.params.len();
    }
    if max_phis_v > r {
        r = max_phis_v;
    }
    if max_args > r {
        r = max_args;
    }
    r
}


// ---------------------------------------------------------------------------
// Lowering a function

/// What the lowering needs of an allocation: spill slots within the count,
/// at most 32 callee-saved registers, and a frame whose size fits `i32`.
pub open spec fn regalloc_fits(f: &Function, ra: &RegAllocResult) -> bool {
    &&& 0 <= ra.num_spill_slots
    &&& forall|v: int| 0 <= v < ra.allocations@.len() ==> ((#[trigger] ra.allocations@[v]) matches Allocation::SpillSlot(s)
        ==> 0 <= s < ra.num_spill_slots)
    &&& ra.used_callee_saved@.len() <= 32
    &&& frame_need(f, ra) + 15 <= i32::MAX
}

/// What the lowering needs of a function: it is closed, there is room for
/// the labels it makes up (numbered in `u32`, past 100 000, one per
/// instruction and place), and each placed instruction that computes a
/// value has a result.
pub open spec fn lowerable(f: &Function) -> bool {
    &&& f.closed()
    &&& f.insts@.len() + 100_000 < u32::MAX
    &&& crate::regalloc::places(f, crate::regalloc::block_order(f)) + 100_000 < u32::MAX
    &&& forall|b: int, k: int| 0 <= b < f.blocks@.len() && 0 <= k < f.blocks@[b].insts@.len()
        && needs_result(f.insts@[(#[trigger] f.blocks@[b].insts@[k]).0 as int])
        ==> inst_result(f.values@, f.blocks@[b].insts@[k]) is Some
}

/// The code of a block: its label, the prologue and the parameters in the
/// entry block, then its instructions.
pub open spec fn insts_code(f: &Function, fr: Frame, b: Block, ids: Seq<Inst>, label: u32) -> (Seq<MInst>, u32)
    decreases ids.len(),
{
    if ids.len() == 0 {
        (seq![], label)
    } else {
        let p = insts_code(f, fr, b, ids.drop_last(), label);
        let c = inst_code(f, fr, b, ids.last(), p.1);
        (p.0 + c.0, c.1)
    }
}

pub open spec fn block_code(f: &Function, fr: Frame, b: Block, label: u32) -> (Seq<MInst>, u32) {
    let head = seq![MInst::Label(b)] + if b == entry_of(f) { prologue_code(fr) + save_params_code(f, fr) } else { seq![] };
    let body = insts_code(f, fr, b, f.blocks@[b.0 as int].insts@, label);
    (head + body.0, body.1)
}

pub open spec fn blocks_code(f: &Function, fr: Frame, order: Seq<Block>, label: u32) -> (Seq<MInst>, u32)
    decreases order.len(),
{
    if order.len() == 0 {
        (seq![], label)
    } else {
        let p = blocks_code(f, fr, order.drop_last(), label);
        let c = block_code(f, fr, order.last(), p.1);
        (p.0 + c.0, c.1)
    }
}

/// The machine code of a function: its blocks in block order, made-up
/// labels numbered from 100000.
pub open spec fn lowered_code(f: &Function, fr: Frame) -> Seq<MInst> {
    blocks_code(f, fr, block_order(f), 100_000).0
}

proof fn lemma_inst_label(f: &Function, fr: Frame, b: Block, id: Inst, label: u32)
    requires
        label < u32::MAX,
    ensures
        label <= inst_code(f, fr, b, id, label).1 <= label + 1,
{
}

proof fn lemma_insts_label(f: &Function, fr: Frame, b: Block, ids: Seq<Inst>, label: u32)
    requires
        label + ids.len() < u32::MAX,
    ensures
        label <= insts_code(f, fr, b, ids, label).1 <= label + ids.len(),
    decreases ids.len(),
{
    if ids.len() > 0 {
        lemma_insts_label(f, fr, b, ids.drop_last(), label);
        let p = insts_code(f, fr, b, ids.drop_last(), label);
        lemma_inst_label(f, fr, b, ids.last(), p.1);
    }
}

impl<'a> Lowerer<'a> {
    fn with_regalloc(func: &'a Function, regalloc: RegAllocResult) -> (r: Self)
        requires
            lowerable(func),
            regalloc_fits(func, &regalloc),
        ensures
            r.wf(),
            r.frame() == frame_of(func, &regalloc),
            r.func == func,
            r.insts@ == Seq::<MInst>::empty(),
            r.next_synthetic_block_id == 100_000,
    {
        let inst_to_val = crate::printer::result_table(func);
        let callee_saved_list = sort_regs(&regalloc.used_callee_saved);
        proof {
            regalloc.used_callee_saved@.lemma_sort_by_ensures(reg_order());
            vstd::seq_lib::to_multiset_len(regalloc.used_callee_saved@);
            vstd::seq_lib::to_multiset_len(callee_saved_list@);
        }
        let slots = backup_slots_of(func);
        let ghost need = frame_need(func, &regalloc);
        proof {
            assert(slots <= need);
        }
        let callee_len = callee_saved_list.len() as i32;
        let current0 = -16 - 8 * callee_len - 8 * regalloc.num_spill_slots;
        let backup_offset = current0 - 8 * (slots as i32);
        let mut current = backup_offset;
        let mut alloca_offsets: Vec<Option<i32>> = Vec::new();
        let insts = func.insts.as_slice();
        let ghost all = func.insts@;
        let mut i: usize = 0;
        proof { lemma_alloca_count_prefix(all, 0); }
        while i < insts.len()
            invariant
                insts@ == all,
                all == func.insts@,
                i <= all.len(),
                need == frame_need(func, &regalloc),
                need + 15 <= i32::MAX,
                backup_offset == -16 - 8 * regalloc.used_callee_saved@.len() - 8 * regalloc.num_spill_slots - 8 * backup_slot_count(func),
                current == backup_offset - 64 * alloca_count(all.subrange(0, i as int)),
                alloca_offsets@.len() == i,
                forall|k: int| 0 <= k < i ==> #[trigger] alloca_offsets@[k] == alloca_table(all, backup_offset as int)[k],
            decreases all.len() - i,
        {
            proof {
                lemma_alloca_count_prefix(all, i as int + 1);
                assert(all.subrange(0, i as int + 1).drop_last() =~= all.subrange(0, i as int));
            }
            match &insts[i] {
                Instruction::Alloca(ty) => {
                    let size: i32 = match ty.byte_size() {
                        Some(b) => b as i32,
                        None => 8,
                    };
                    let alloc_size = if size > 64 { size } else { 64 };
                    assert(alloc_size == 64) by {
                        assert(ty.spec_byte_size() matches Some(b) ==> b <= 8);
                    }
                    let before = alloc_size + 7;
                    let alloc_size = before & !7;
                    assert(alloc_size == 64) by (bit_vector)
                        requires before == 71i32, alloc_size == before & !7i32;
                    current = current - alloc_size;
                    alloca_offsets.push(Some(current));
                }
                _ => {
                    alloca_offsets.push(None);
                }
            }
            i = i + 1;
        }
        assert(all.subrange(0, all.len() as int) =~= all);
        let total_needed = -current;
        proof { lemma_round16(total_needed); }
        let frame_size = (total_needed + 15) & !15;
        let r = Lowerer {
            func,
            insts: Vec::new(),
            allocations: regalloc.allocations,
            callee_saved_list,
            alloca_offsets,
            inst_to_val,
            frame_size,
            backup_offset,
            backup_slots: slots as i32,
            next_synthetic_block_id: 100_000,
        };
        proof {
            let fr = r.frame();
            assert(fr.alloca =~= alloca_table(all, backup_offset as int));
            assert(fr.results =~= Seq::new(func.insts@.len(), |i: int| inst_result(func.values@, Inst(i as u32))));
            assert forall|b: int| 0 <= b < func.blocks@.len() implies phi_count(func, (#[trigger] func.blocks@[b]).insts@) <= fr.backup_slots by {
                lemma_max_phis(func, func.blocks@.len() as int, b);
            }
            assert forall|v: int| 0 <= v < fr.allocs.len() implies ((#[trigger] fr.allocs[v]) matches Allocation::SpillSlot(s)
                ==> i32::MIN <= spill_offset(fr, s) && 0 <= s) by {
                assert(regalloc.allocations@[v] == fr.allocs[v]);
            }
            assert(fr == frame_of(func, &regalloc));
        }
        r
    }

    fn lower_block(&mut self, b: Block, entry_block: Block)
        requires
            old(self).wf(),
            lowerable(old(self).func),
            b.0 < old(self).func.blocks@.len(),
            entry_block == entry_of(old(self).func),
            old(self).frame().backup_slots >= max_call_args(old(self).func, old(self).func.blocks@.len() as int),
            old(self).next_synthetic_block_id + old(self).func.blocks@[b.0 as int].insts@.len() < u32::MAX,
        ensures
            final(self).same_frame(old(self)),
            (final(self).insts@, final(self).next_synthetic_block_id) == ({
                let c = block_code(old(self).func, old(self).frame(), b, old(self).next_synthetic_block_id);
                (old(self).insts@ + c.0, c.1)
            }),
            final(self).next_synthetic_block_id <= old(self).next_synthetic_block_id + old(self).func.blocks@[b.0 as int].insts@.len(),
    {
        let ghost fr = self.frame();
        let func = self.func;
        let ghost before = self.insts@;
        let ghost label0 = self.next_synthetic_block_id;
        self.insts.push(MInst::Label(b));
        if b == entry_block {
            self.emit_prologue();
            self.save_params();
        }
        let ghost head_end = self.insts@;
        let bd = func.blocks.at(b);
        let ghost ids = bd.insts@;
        let mut k: usize = 0;
        while k < bd.insts.len()
            invariant
                self.wf(),
                self.frame() == fr,
                self.func == func,
                self.same_frame(old(self)),
                lowerable(func),
                fr.backup_slots >= max_call_args(func, func.blocks@.len() as int),
                b.0 < func.blocks@.len(),
                *bd == func.blocks@[b.0 as int],
                ids == bd.insts@,
                k <= ids.len(),
                label0 + ids.len() < u32::MAX,
                self.next_synthetic_block_id <= label0 + k,
                (self.insts@, self.next_synthetic_block_id) == ({
                    let c = insts_code(func, fr, b, ids.subrange(0, k as int), label0);
                    (head_end + c.0, c.1)
                }),
            decreases ids.len() - k,
        {
            assert(ids.subrange(0, k as int + 1).drop_last() =~= ids.subrange(0, k as int));
            let id = bd.insts[k];
            proof {
                assert(id == func.blocks@[b.0 as int].insts@[k as int]);
                assert(id.0 < func.insts@.len());
                lemma_call_args_in(func, ids, k as int);
                lemma_max_call_args(func, func.blocks@.len() as int, b.0 as int);
                lemma_insts_label(func, fr, b, ids.subrange(0, k as int), label0);
            }
            self.lower_inst(b, id);
            proof {
                let p = insts_code(func, fr, b, ids.subrange(0, k as int), label0);
                lemma_inst_label(func, fr, b, id, p.1);
            }
            k = k + 1;
        }
        assert(ids.subrange(0, ids.len() as int) =~= ids);
        assert(self.insts@ =~= before + block_code(func, fr, b, label0).0);
    }

    fn lower(&mut self)
        requires
            old(self).wf(),
            lowerable(old(self).func),
            old(self).next_synthetic_block_id == 100_000,
            old(self).frame().backup_slots >= max_call_args(old(self).func, old(self).func.blocks@.len() as int),
        ensures
            final(self).insts@ == old(self).insts@ + lowered_code(old(self).func, old(self).frame()),
            final(self).same_frame(old(self)),
    {
        let ghost fr = self.frame();
        let func = self.func;
        let entry_block = match func.entry_block {
            Some(b) => b,
            None => Block(0),
        };
        let order = block_order_of(func);
        proof {
            crate::regalloc::lemma_block_order(func);
        }
        let mut j: usize = 0;
        while j < order.len()
            invariant
                self.wf(),
                self.frame() == fr,
                self.func == func,
                self.same_frame(old(self)),
                lowerable(func),
                fr.backup_slots >= max_call_args(func, func.blocks@.len() as int),
                order@ == block_order(func),
                forall|j: int| 0 <= j < order@.len() ==> (#[trigger] order@[j]).0 < func.blocks@.len(),
                entry_block == entry_of(func),
                j <= order@.len(),
                self.next_synthetic_block_id <= 100_000 + places(func, order@.subrange(0, j as int)),
                (self.insts@, self.next_synthetic_block_id) == ({
                    let c = blocks_code(func, fr, order@.subrange(0, j as int), 100_000);
                    (old(self).insts@ + c.0, c.1)
                }),
            decreases order@.len() - j,
        {
            let ghost pre = order@.subrange(0, j as int);
            assert(order@.subrange(0, j as int + 1).drop_last() =~= pre);
            proof { crate::regalloc::lemma_places_prefix(func, order@, j as int + 1); }
            let b = order[j];
            self.lower_block(b, entry_block);
            j = j + 1;
        }
        assert(order@.subrange(0, order@.len() as int) =~= order@);
    }
}

/// Lowers a function with a given allocation.
pub fn lower_function_with_regalloc(func: &Function, regalloc: RegAllocResult) -> (r: LoweredFunction)
    requires
        lowerable(func),
        regalloc_fits(func, &regalloc),
    ensures
        r.name@ == func.name@,
        r.insts@ == lowered_code(func, frame_of(func, &regalloc)),
        r.frame_size == frame_of(func, &regalloc).frame_size,
{
    let ghost fr = frame_of(func, &regalloc);
    let mut lowerer = Lowerer::with_regalloc(func, regalloc);
    proof {
        assert(fr.backup_slots == backup_slot_count(func));
    }
    lowerer.lower();
    LoweredFunction { name: func.name.clone(), insts: lowerer.insts, frame_size: lowerer.frame_size }
}

/// A copy of the lowered function: scheduling keeps the order of the
/// instructions.
pub fn schedule_instructions(lowered: &LoweredFunction) -> (r: LoweredFunction)
    ensures
        r.name@ == lowered.name@,
        r.insts@ == lowered.insts@,
        r.frame_size == lowered.frame_size,
{
    let mut insts: Vec<MInst> = Vec::new();
    let mut i: usize = 0;
    while i < lowered.insts.len()
        invariant
            i <= lowered.insts@.len(),
            insts@ == lowered.insts@.subrange(0, i as int),
        decreases lowered.insts@.len() - i,
    {
        insts.push(crate::riscv::copy_minst(&lowered.insts[i]));
        i = i + 1;
    }
    assert(lowered.insts@.subrange(0, lowered.insts@.len() as int) =~= lowered.insts@);
    LoweredFunction { name: lowered.name.clone(), insts, frame_size: lowered.frame_size }
}


/// All that a frame of the function can need, for any allocation the scan
/// makes: at most 32 callee-saved registers and one spill slot per value.
pub open spec fn frame_need_bound(f: &Function) -> int {
    (16 + 8 * 32 + 8 * f.values@.len() + 8 * backup_slot_count(f) + 64 * alloca_count(f.insts@)) as int
}

/// Lowers a function: allocates its registers, then selects its machine
/// instructions.
pub fn lower_function(func: &Function) -> (r: LoweredFunction)
    requires
        lowerable(func),
        func.values@.len() < i32::MAX,
        frame_need_bound(func) + 15 <= i32::MAX,
    ensures
        exists|ra: RegAllocResult, live: crate::regalloc::LiveState|
            crate::regalloc::live_fixpoint(func, live) && #[trigger] crate::regalloc::allocation_of(func, live, ra)
            && r.name@ == func.name@
            && r.insts@ == lowered_code(func, frame_of(func, &ra))
            && r.frame_size == frame_of(func, &ra).frame_size,
{
    let ra = allocate_registers(func);
    proof {
        let live = choose|live: crate::regalloc::LiveState| crate::regalloc::live_fixpoint(func, live)
            && crate::regalloc::allocation_of(func, live, ra);
        let iv = crate::regalloc::live_intervals(func, live);
        let es = crate::regalloc::scan_order(iv);
        let calls = crate::regalloc::number_blocks(func, block_order(func)).2;
        let n = func.values@.len();
        crate::regalloc::lemma_start_order_total();
        crate::regalloc::entries(iv).lemma_sort_by_ensures(crate::regalloc::start_order());
        vstd::seq_lib::to_multiset_len(crate::regalloc::entries(iv));
        vstd::seq_lib::to_multiset_len(es);
        crate::regalloc::lemma_number_blocks_shape_pub(func);
        crate::regalloc::lemma_intervals_len(func, live);
        assert(es.len() == n);
        crate::regalloc::lemma_scan_slots(es, calls, n);
        crate::regalloc::lemma_scan_next(es, calls, crate::regalloc::scan_init(n));
        crate::regalloc::lemma_flagged_len(crate::regalloc::scan_result(func, live).3, 32);
        assert forall|v: int| 0 <= v < ra.allocations@.len() implies ((#[trigger] ra.allocations@[v]) matches Allocation::SpillSlot(s)
            ==> 0 <= s < ra.num_spill_slots) by {
            crate::regalloc::lemma_all_scanned(iv, v);
        }
        assert(regalloc_fits(func, &ra));
    }
    lower_function_with_regalloc(func, ra)
}

} // verus!
