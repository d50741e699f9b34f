//! Register allocation by linear scan over live intervals.
//!
//! Instructions are numbered in block order (the entry block first, then the
//! others by number), starting from 1; number 0 stands for the parameters.
//! Liveness is computed per block until it is stable, each value's live
//! interval is the span of numbers from its definition to its last use
//! (widened over the blocks it is live into and out of), and the intervals
//! are scanned by increasing start (equal starts by value number).
use vstd::prelude::*;
use crate::arena::{Block, EntityId, Inst, Value};
use crate::function::{Function, ValueDef};
use crate::inst::Instruction;
use crate::riscv::Reg;

verus! {

/// Caller-saved allocatable registers, in the order they are handed out:
/// t3-t6, then a0-a7.
pub const CALLER_SAVED_POOL: [u8; 12] = [28, 29, 30, 31, 10, 11, 12, 13, 14, 15, 16, 17];

/// Callee-saved allocatable registers, in the order they are handed out: s1-s11.
pub const CALLEE_SAVED_POOL: [u8; 11] = [9, 18, 19, 20, 21, 22, 23, 24, 25, 26, 27];

pub open spec fn in_caller_pool(r: Reg) -> bool {
    (10 <= r.0 <= 17) || (28 <= r.0 <= 31)
}

pub open spec fn in_callee_pool(r: Reg) -> bool {
    r.0 == 9 || (18 <= r.0 <= 27)
}

/// Where a value lives: a register, or a numbered spill slot of the frame.
#[derive(Clone, Copy, Debug, PartialEq, Eq, Structural)]
pub enum Allocation {
    Reg(Reg),
    SpillSlot(i32),
}

/// The allocation of each value (indexed by value number), the callee-saved
/// registers handed out (in increasing number, each once), and the number
/// of spill slots used.
#[derive(Clone, Debug, PartialEq, Eq)]
pub struct RegAllocResult {
    pub allocations: Vec<Allocation>,
    pub used_callee_saved: Vec<Reg>,
    pub num_spill_slots: i32,
}

/// The values an instruction reads, in order.
pub fn operands_of(inst: &Instruction) -> (r: Vec<Value>)
    ensures
        r@ == inst.operands(),
{
    crate::opt::get_operands(inst)
}

/// The blocks that a block's terminator can jump to.
pub open spec fn succs(f: &Function, b: Block) -> Seq<Block> {
    let ids = f.blocks@[b.0 as int].insts@;
    if ids.len() == 0 {
        seq![]
    } else {
        match f.insts@[ids.last().0 as int] {
            Instruction::Jmp(t) => seq![t],
            Instruction::Br(_, t, e) => seq![t, e],
            _ => seq![],
        }
    }
}

pub fn successors_of(func: &Function, block: Block) -> (r: Vec<Block>)
    requires
        func.wf(),
        block.0 < func.blocks@.len(),
    ensures
        r@ == succs(func, block),
{
    let bd = func.blocks.at(block);
    let n = bd.insts.len();
    if n == 0 {
        return vec![];
    }
    let last = bd.insts[n - 1];
    assert(last.0 < func.insts@.len());
    match func.insts.at(last) {
        Instruction::Jmp(t) => vec![*t],
        Instruction::Br(_, t, e) => vec![*t, *e],
        _ => vec![],
    }
}

// ---------------------------------------------------------------------------
// Block order and numbering

pub open spec fn entry_of(f: &Function) -> Block {
    match f.entry_block {
        Some(b) => b,
        None => Block(0),
    }
}

/// The blocks `0..n` but the entry, in increasing number.
pub open spec fn others(n: int, e: Block) -> Seq<Block>
    decreases n,
{
    if n <= 0 {
        seq![]
    } else {
        others(n - 1, e) + if (n - 1) == e.0 { seq![] } else { seq![Block((n - 1) as u32)] }
    }
}

/// The entry block first, then the other blocks in increasing number.
pub open spec fn block_order(f: &Function) -> Seq<Block> {
    let n = f.blocks@.len() as int;
    let e = entry_of(f);
    if e.0 < n { seq![e] + others(n, e) } else { others(n, e) }
}

pub proof fn lemma_others(n: int, e: Block)
    requires
        0 <= n <= u32::MAX + 1,
    ensures
        forall|j: int| 0 <= j < others(n, e).len() ==> (#[trigger] others(n, e)[j]).0 < n && others(n, e)[j] != e,
    decreases n,
{
    if n > 0 {
        lemma_others(n - 1, e);
        let prev = others(n - 1, e);
        assert forall|j: int| 0 <= j < others(n, e).len() implies (#[trigger] others(n, e)[j]).0 < n && others(n, e)[j] != e by {
            if j < prev.len() {
                assert(others(n, e)[j] == prev[j]);
            }
        }
    }
}

pub proof fn lemma_block_order(f: &Function)
    requires
        f.wf(),
    ensures
        forall|j: int| 0 <= j < block_order(f).len() ==> (#[trigger] block_order(f)[j]).0 < f.blocks@.len(),
{
    lemma_others(f.blocks@.len() as int, entry_of(f));
}

pub fn block_order_of(func: &Function) -> (r: Vec<Block>)
    requires
        func.wf(),
    ensures
        r@ == block_order(func),
{
    let n = func.blocks.len();
    let e = match func.entry_block {
        Some(b) => b,
        None => Block(0),
    };
    let mut r: Vec<Block> = Vec::new();
    if (e.0 as usize) < n {
        r.push(e);
    }
    let ghost head = r@;
    let mut i: usize = 0;
    while i < n
        invariant
            n == func.blocks@.len(),
            n <= u32::MAX,
            i <= n,
            e == entry_of(func),
            r@ == head + others(i as int, e),
        decreases n - i,
    {
        if i as u32 != e.0 {
            r.push(Block(i as u32));
        }
        i = i + 1;
        assert(r@ =~= head + others(i as int, e));
    }
    r
}

/// Numbering: for each instruction the number of its (last) place, 0 when
/// it has none; for each block the first and last number of its range; for
/// each number whether a call stands there; and the next free number.
pub struct Numbering {
    pub inst_index: Vec<usize>,
    pub block_range: Vec<(usize, usize)>,
    pub is_call: Vec<bool>,
    pub next: u64,
}

/// The numbering state as the walk of the blocks in order builds it.
pub type NumState = (Seq<usize>, Seq<(usize, usize)>, Seq<bool>, nat);

pub open spec fn number_inst(f: &Function, st: NumState, id: Inst) -> NumState {
    (
        if id.0 < st.0.len() { st.0.update(id.0 as int, st.3 as usize) } else { st.0 },
        st.1,
        st.2.push(f.insts@[id.0 as int] is Call),
        st.3 + 1,
    )
}

pub open spec fn number_insts(f: &Function, st: NumState, ids: Seq<Inst>) -> NumState
    decreases ids.len(),
{
    if ids.len() == 0 {
        st
    } else {
        number_inst(f, number_insts(f, st, ids.drop_last()), ids.last())
    }
}

pub open spec fn number_block(f: &Function, st: NumState, b: Block) -> NumState {
    let start = st.3;
    let after = number_insts(f, st, f.blocks@[b.0 as int].insts@);
    let end = if after.3 > start { (after.3 - 1) as nat } else { start };
    let ranges = if b.0 < after.1.len() { after.1.update(b.0 as int, (start as usize, end as usize)) } else { after.1 };
    (after.0, ranges, after.2, after.3)
}

pub open spec fn number_blocks(f: &Function, order: Seq<Block>) -> NumState
    decreases order.len(),
{
    if order.len() == 0 {
        (
            Seq::new(f.insts@.len(), |i: int| 0usize),
            Seq::new(f.blocks@.len(), |i: int| (0usize, 0usize)),
            seq![false],
            1,
        )
    } else {
        number_block(f, number_blocks(f, order.drop_last()), order.last())
    }
}

/// The total number of places in the listed blocks.
pub open spec fn places(f: &Function, order: Seq<Block>) -> nat
    decreases order.len(),
{
    if order.len() == 0 {
        0
    } else {
        places(f, order.drop_last()) + f.blocks@[order.last().0 as int].insts@.len()
    }
}

proof fn lemma_number_insts_shape(f: &Function, st: NumState, ids: Seq<Inst>)
    ensures
        number_insts(f, st, ids).0.len() == st.0.len(),
        number_insts(f, st, ids).1 == st.1,
        number_insts(f, st, ids).2.len() == st.2.len() + ids.len(),
        number_insts(f, st, ids).3 == st.3 + ids.len(),
    decreases ids.len(),
{
    if ids.len() > 0 {
        lemma_number_insts_shape(f, st, ids.drop_last());
    }
}

proof fn lemma_number_blocks_shape(f: &Function, order: Seq<Block>)
    ensures
        number_blocks(f, order).0.len() == f.insts@.len(),
        number_blocks(f, order).1.len() == f.blocks@.len(),
        number_blocks(f, order).3 == 1 + places(f, order),
        number_blocks(f, order).2.len() == number_blocks(f, order).3,
    decreases order.len(),
{
    if order.len() > 0 {
        lemma_number_blocks_shape(f, order.drop_last());
        let st = number_blocks(f, order.drop_last());
        lemma_number_insts_shape(f, st, f.blocks@[order.last().0 as int].insts@);
    }
}

/// Numbers the instructions of the blocks in order.
pub fn number_instructions(func: &Function, order: &Vec<Block>) -> (r: Numbering)
    requires
        func.wf(),
        forall|j: int| 0 <= j < order@.len() ==> (#[trigger] order@[j]).0 < func.blocks@.len(),
        1 + places(func, order@) <= u64::MAX,
    ensures
        (r.inst_index@, r.block_range@, r.is_call@, r.next as nat) == number_blocks(func, order@),
{
    let mut inst_index: Vec<usize> = Vec::new();
    let mut i: usize = 0;
    while i < func.insts.len()
        invariant
            i <= func.insts@.len(),
            inst_index@ == Seq::new(i as nat, |k: int| 0usize),
        decreases func.insts@.len() - i,
    {
        inst_index.push(0);
        i = i + 1;
        assert(inst_index@ =~= Seq::new(i as nat, |k: int| 0usize));
    }
    let mut block_range: Vec<(usize, usize)> = Vec::new();
    let mut i: usize = 0;
    while i < func.blocks.len()
        invariant
            i <= func.blocks@.len(),
            block_range@ == Seq::new(i as nat, |k: int| (0usize, 0usize)),
        decreases func.blocks@.len() - i,
    {
        block_range.push((0, 0));
        i = i + 1;
        assert(block_range@ =~= Seq::new(i as nat, |k: int| (0usize, 0usize)));
    }
    let mut is_call: Vec<bool> = vec![false];
    let mut cur: u64 = 1;
    assert(is_call@ =~= seq![false]);
    let mut j: usize = 0;
    while j < order.len()
        invariant
            func.wf(),
            forall|j: int| 0 <= j < order@.len() ==> (#[trigger] order@[j]).0 < func.blocks@.len(),
            1 + places(func, order@) <= u64::MAX,
            j <= order@.len(),
            (inst_index@, block_range@, is_call@, cur as nat) == number_blocks(func, order@.subrange(0, j as int)),
        decreases order@.len() - j,
    {
        let ghost pre = order@.subrange(0, j as int);
        assert(order@.subrange(0, j as int + 1).drop_last() =~= pre);
        proof {
            lemma_number_blocks_shape(func, pre);
            lemma_places_prefix(func, order@, j as int + 1);
        }
        let b = order[j];
        let ghost st0 = (inst_index@, block_range@, is_call@, cur as nat);
        let start = cur;
        let bd = func.blocks.at(b);
        let ghost ids = bd.insts@;
        let mut k: usize = 0;
        while k < bd.insts.len()
            invariant
                func.wf(),
                b.0 < func.blocks@.len(),
                ids == func.blocks@[b.0 as int].insts@,
                *bd == func.blocks@[b.0 as int],
                k <= ids.len(),
                st0.3 + ids.len() <= u64::MAX,
                (inst_index@, block_range@, is_call@, cur as nat) == number_insts(func, st0, ids.subrange(0, k as int)),
                inst_index@.len() == func.insts@.len(),
            decreases ids.len() - k,
        {
            assert(ids.subrange(0, k as int + 1).drop_last() =~= ids.subrange(0, k as int));
            proof { lemma_number_insts_shape(func, st0, ids.subrange(0, k as int)); }
            let id = bd.insts[k];
            assert(id.0 < func.insts@.len());
            inst_index.set(id.0 as usize, #[verifier::truncate] (cur as usize));
            let c = match func.insts.at(id) {
                Instruction::Call(_, _) => true,
                _ => false,
            };
            is_call.push(c);
            cur = cur + 1;
            k = k + 1;
        }
        assert(ids.subrange(0, ids.len() as int) =~= ids);
        proof { lemma_number_insts_shape(func, st0, ids); }
        let end = if cur > start { cur - 1 } else { start };
        block_range.set(b.0 as usize, (#[verifier::truncate] (start as usize), #[verifier::truncate] (end as usize)));
        j = j + 1;
    }
    assert(order@.subrange(0, order@.len() as int) =~= order@);
    Numbering { inst_index, block_range, is_call, next: cur }
}

pub proof fn lemma_places_prefix(f: &Function, order: Seq<Block>, j: int)
    requires
        0 <= j <= order.len(),
    ensures
        places(f, order.subrange(0, j)) <= places(f, order),
    decreases order.len() - j,
{
    if j < order.len() {
        lemma_places_prefix(f, order, j + 1);
        assert(order.subrange(0, j + 1).drop_last() =~= order.subrange(0, j));
    } else {
        assert(order.subrange(0, j) =~= order);
    }
}


// ---------------------------------------------------------------------------
// Definitions and uses per block

pub open spec fn no_bits(n: nat) -> Seq<bool> {
    Seq::new(n, |v: int| false)
}

/// The instruction defines value number `v`.
pub open spec fn defines(f: &Function, id: Inst, v: int) -> bool {
    f.values@[v].def == ValueDef::Inst(id)
}

/// One instruction of a block: the values it reads that the block has not
/// defined before it are used (a phi reads nothing here), and the values it
/// defines are defined.
pub open spec fn du_inst(f: &Function, du: (Seq<bool>, Seq<bool>), id: Inst) -> (Seq<bool>, Seq<bool>) {
    let inst = f.insts@[id.0 as int];
    let uses = if inst is Phi {
        du.1
    } else {
        Seq::new(du.1.len(), |v: int| du.1[v] || (!du.0[v] && inst.operands().contains(Value(v as u32))))
    };
    (Seq::new(du.0.len(), |v: int| du.0[v] || defines(f, id, v)), uses)
}

pub open spec fn du_insts(f: &Function, du: (Seq<bool>, Seq<bool>), ids: Seq<Inst>) -> (Seq<bool>, Seq<bool>)
    decreases ids.len(),
{
    if ids.len() == 0 {
        du
    } else {
        du_inst(f, du_insts(f, du, ids.drop_last()), ids.last())
    }
}

/// The values a block defines and the values it uses before defining them.
pub open spec fn block_du(f: &Function, b: int) -> (Seq<bool>, Seq<bool>) {
    let n = f.values@.len();
    du_insts(f, (no_bits(n), no_bits(n)), f.blocks@[b].insts@)
}

proof fn lemma_du_len(f: &Function, du: (Seq<bool>, Seq<bool>), ids: Seq<Inst>)
    ensures
        du_insts(f, du, ids).0.len() == du.0.len(),
        du_insts(f, du, ids).1.len() == du.1.len(),
    decreases ids.len(),
{
    if ids.len() > 0 {
        lemma_du_len(f, du, ids.drop_last());
    }
}

/// A phi's incoming value is used by its predecessor block, unless that
/// block defines it.
pub open spec fn phi_pair(defs: Seq<Seq<bool>>, uses: Seq<Seq<bool>>, p: (Block, Value)) -> Seq<Seq<bool>> {
    let (b, v) = p;
    if b.0 < defs.len() && b.0 < uses.len() && v.0 < defs[b.0 as int].len() && v.0 < uses[b.0 as int].len()
        && !defs[b.0 as int][v.0 as int] {
        uses.update(b.0 as int, uses[b.0 as int].update(v.0 as int, true))
    } else {
        uses
    }
}

pub open spec fn phi_pairs(defs: Seq<Seq<bool>>, uses: Seq<Seq<bool>>, ps: Seq<(Block, Value)>) -> Seq<Seq<bool>>
    decreases ps.len(),
{
    if ps.len() == 0 {
        uses
    } else {
        phi_pair(defs, phi_pairs(defs, uses, ps.drop_last()), ps.last())
    }
}

pub open spec fn phi_insts(f: &Function, defs: Seq<Seq<bool>>, uses: Seq<Seq<bool>>, ids: Seq<Inst>) -> Seq<Seq<bool>>
    decreases ids.len(),
{
    if ids.len() == 0 {
        uses
    } else {
        let u = phi_insts(f, defs, uses, ids.drop_last());
        match f.insts@[ids.last().0 as int] {
            Instruction::Phi(ps) => phi_pairs(defs, u, ps@),
            _ => u,
        }
    }
}

pub open spec fn phi_blocks(f: &Function, defs: Seq<Seq<bool>>, uses: Seq<Seq<bool>>, order: Seq<Block>) -> Seq<Seq<bool>>
    decreases order.len(),
{
    if order.len() == 0 {
        uses
    } else {
        phi_insts(f, defs, phi_blocks(f, defs, uses, order.drop_last()), f.blocks@[order.last().0 as int].insts@)
    }
}

/// Per block (by number): the values it defines, and the values it uses
/// before defining them, phi inputs from it included.
pub open spec fn def_sets(f: &Function) -> Seq<Seq<bool>> {
    Seq::new(f.blocks@.len(), |b: int| block_du(f, b).0)
}

pub open spec fn block_uses(f: &Function) -> Seq<Seq<bool>> {
    Seq::new(f.blocks@.len(), |b: int| block_du(f, b).1)
}

pub open spec fn use_sets(f: &Function) -> Seq<Seq<bool>> {
    phi_blocks(f, def_sets(f), block_uses(f), block_order(f))
}

proof fn lemma_phi_shape(f: &Function, defs: Seq<Seq<bool>>, uses: Seq<Seq<bool>>, order: Seq<Block>, n: nat)
    requires
        forall|b: int| 0 <= b < uses.len() ==> (#[trigger] uses[b]).len() == n,
    ensures
        phi_blocks(f, defs, uses, order).len() == uses.len(),
        forall|b: int| 0 <= b < uses.len() ==> (#[trigger] phi_blocks(f, defs, uses, order)[b]).len() == n,
    decreases order.len(),
{
    if order.len() > 0 {
        lemma_phi_shape(f, defs, uses, order.drop_last(), n);
        lemma_phi_insts_shape(f, defs, phi_blocks(f, defs, uses, order.drop_last()), f.blocks@[order.last().0 as int].insts@, n);
    }
}

proof fn lemma_phi_insts_shape(f: &Function, defs: Seq<Seq<bool>>, uses: Seq<Seq<bool>>, ids: Seq<Inst>, n: nat)
    requires
        forall|b: int| 0 <= b < uses.len() ==> (#[trigger] uses[b]).len() == n,
    ensures
        phi_insts(f, defs, uses, ids).len() == uses.len(),
        forall|b: int| 0 <= b < uses.len() ==> (#[trigger] phi_insts(f, defs, uses, ids)[b]).len() == n,
    decreases ids.len(),
{
    if ids.len() > 0 {
        lemma_phi_insts_shape(f, defs, uses, ids.drop_last(), n);
        let u = phi_insts(f, defs, uses, ids.drop_last());
        match f.insts@[ids.last().0 as int] {
            Instruction::Phi(ps) => lemma_phi_pairs_shape(defs, u, ps@, n),
            _ => {}
        }
    }
}

proof fn lemma_phi_pairs_shape(defs: Seq<Seq<bool>>, uses: Seq<Seq<bool>>, ps: Seq<(Block, Value)>, n: nat)
    requires
        forall|b: int| 0 <= b < uses.len() ==> (#[trigger] uses[b]).len() == n,
    ensures
        phi_pairs(defs, uses, ps).len() == uses.len(),
        forall|b: int| 0 <= b < uses.len() ==> (#[trigger] phi_pairs(defs, uses, ps)[b]).len() == n,
    decreases ps.len(),
{
    if ps.len() > 0 {
        lemma_phi_pairs_shape(defs, uses, ps.drop_last(), n);
    }
}

/// The values one block defines and uses.
fn block_def_use(func: &Function, b: Block) -> (r: (Vec<bool>, Vec<bool>))
    requires
        func.wf(),
        b.0 < func.blocks@.len(),
    ensures
        (r.0@, r.1@) == block_du(func, b.0 as int),
{
    let nv = func.values.len();
    let mut defs: Vec<bool> = Vec::new();
    let mut uses: Vec<bool> = Vec::new();
    let mut v: usize = 0;
    while v < nv
        invariant
            nv == func.values@.len(),
            v <= nv,
            defs@ == no_bits(v as nat),
            uses@ == no_bits(v as nat),
        decreases nv - v,
    {
        defs.push(false);
        uses.push(false);
        v = v + 1;
        assert(defs@ =~= no_bits(v as nat));
        assert(uses@ =~= no_bits(v as nat));
    }
    let bd = func.blocks.at(b);
    let ghost ids = bd.insts@;
    let ghost du0 = (defs@, uses@);
    let vals = func.values.as_slice();
    let mut k: usize = 0;
    while k < bd.insts.len()
        invariant
            func.wf(),
            nv == func.values@.len(),
            nv <= u32::MAX,
            vals@ == func.values@,
            b.0 < func.blocks@.len(),
            *bd == func.blocks@[b.0 as int],
            ids == bd.insts@,
            k <= ids.len(),
            du0 == (no_bits(nv as nat), no_bits(nv as nat)),
            (defs@, uses@) == du_insts(func, du0, ids.subrange(0, k as int)),
            defs@.len() == nv,
            uses@.len() == nv,
        decreases ids.len() - k,
    {
        assert(ids.subrange(0, k as int + 1).drop_last() =~= ids.subrange(0, k as int));
        let id = bd.insts[k];
        assert(id.0 < func.insts@.len());
        let inst = func.insts.at(id);
        let ghost d0 = defs@;
        let ghost u0 = uses@;
        match inst {
            Instruction::Phi(_) => {}
            _ => {
                let ops = operands_of(inst);
                let mut j: usize = 0;
                while j < ops.len()
                    invariant
                        nv == uses@.len(),
                        nv <= u32::MAX,
                        defs@ == d0,
                        d0.len() == nv,
                        u0.len() == nv,
                        ops@ == inst.operands(),
                        j <= ops@.len(),
                        forall|v: int| 0 <= v < nv ==> #[trigger] uses@[v] == (u0[v] || (!d0[v]
                            && ops@.subrange(0, j as int).contains(Value(v as u32)))),
                    decreases ops@.len() - j,
                {
                    let o = ops[j];
                    let oi = o.0 as usize;
                    if oi < nv && !defs[oi] {
                        uses.set(oi, true);
                    }
                    assert forall|v: int| 0 <= v < nv implies #[trigger] uses@[v] == (u0[v] || (!d0[v]
                        && ops@.subrange(0, j as int + 1).contains(Value(v as u32)))) by {
                        let w = Value(v as u32);
                        let pre = ops@.subrange(0, j as int);
                        let nxt = ops@.subrange(0, j as int + 1);
                        if nxt.contains(w) && !pre.contains(w) {
                            let t = choose|t: int| 0 <= t < nxt.len() && #[trigger] nxt[t] == w;
                            if t < j {
                                assert(pre[t] == w);
                            }
                        }
                        if pre.contains(w) {
                            let t = choose|t: int| 0 <= t < pre.len() && #[trigger] pre[t] == w;
                            assert(nxt[t] == w);
                        }
                        if v == o.0 {
                            assert(nxt[j as int] == w);
                        }
                    }
                    j = j + 1;
                }
                assert(ops@.subrange(0, ops@.len() as int) =~= ops@);
                assert(uses@ =~= Seq::new(u0.len(), |v: int| u0[v] || (!d0[v] && inst.operands().contains(Value(v as u32)))));
            }
        }
        let ghost u1 = uses@;
        let mut v: usize = 0;
        while v < nv
            invariant
                nv == vals@.len(),
                vals@ == func.values@,
                defs@.len() == nv,
                d0.len() == nv,
                v <= nv,
                forall|w: int| 0 <= w < v ==> #[trigger] defs@[w] == (d0[w] || defines(func, id, w)),
                forall|w: int| v <= w < nv ==> #[trigger] defs@[w] == d0[w],
            decreases nv - v,
        {
            if vals[v].def == ValueDef::Inst(id) {
                defs.set(v, true);
            }
            v = v + 1;
        }
        assert(defs@ =~= Seq::new(d0.len(), |w: int| d0[w] || defines(func, id, w)));
        k = k + 1;
    }
    assert(ids.subrange(0, ids.len() as int) =~= ids);
    (defs, uses)
}

/// Per block: the values it defines and those it uses before defining
/// them, with the inputs of phis counted as uses of their predecessors.
pub fn def_use_sets(func: &Function, order: &Vec<Block>) -> (r: (Vec<Vec<bool>>, Vec<Vec<bool>>))
    requires
        func.closed(),
        order@ == block_order(func),
    ensures
        r.0@.len() == func.blocks@.len(),
        r.1@.len() == func.blocks@.len(),
        forall|b: int| 0 <= b < func.blocks@.len() ==> (#[trigger] r.0@[b])@ == def_sets(func)[b],
        forall|b: int| 0 <= b < func.blocks@.len() ==> (#[trigger] r.1@[b])@ == use_sets(func)[b],
{
    let nb = func.blocks.len();
    let mut defs: Vec<Vec<bool>> = Vec::new();
    let mut uses: Vec<Vec<bool>> = Vec::new();
    let mut b: usize = 0;
    while b < nb
        invariant
            func.wf(),
            nb == func.blocks@.len(),
            b <= nb,
            defs@.len() == b,
            uses@.len() == b,
            forall|c: int| 0 <= c < b ==> (#[trigger] defs@[c])@ == block_du(func, c).0,
            forall|c: int| 0 <= c < b ==> (#[trigger] uses@[c])@ == block_du(func, c).1,
        decreases nb - b,
    {
        let (d, u) = block_def_use(func, Block(b as u32));
        defs.push(d);
        uses.push(u);
        b = b + 1;
    }
    let ghost dv = Seq::new(nb as nat, |c: int| defs@[c]@);
    assert(dv =~= def_sets(func));
    let ghost u0 = block_uses(func);
    proof {
        assert forall|c: int| 0 <= c < nb implies (#[trigger] u0[c]).len() == func.values@.len() by {
            lemma_du_len(func, (no_bits(func.values@.len()), no_bits(func.values@.len())), func.blocks@[c].insts@);
        }
        assert forall|c: int| 0 <= c < nb implies (#[trigger] dv[c]).len() == func.values@.len() by {
            lemma_du_len(func, (no_bits(func.values@.len()), no_bits(func.values@.len())), func.blocks@[c].insts@);
        }
        lemma_block_order(func);
    }
    let mut j: usize = 0;
    while j < order.len()
        invariant
            func.closed(),
            nb == func.blocks@.len(),
            order@ == block_order(func),
            forall|j: int| 0 <= j < order@.len() ==> (#[trigger] order@[j]).0 < func.blocks@.len(),
            dv == def_sets(func),
            dv.len() == nb,
            u0.len() == nb,
            defs@.len() == nb,
            forall|c: int| 0 <= c < nb ==> (#[trigger] defs@[c])@ == dv[c],
            forall|c: int| 0 <= c < nb ==> (#[trigger] dv[c]).len() == func.values@.len(),
            forall|c: int| 0 <= c < nb ==> (#[trigger] u0[c]).len() == func.values@.len(),
            j <= order@.len(),
            uses@.len() == nb,
            forall|c: int| 0 <= c < nb ==> (#[trigger] uses@[c])@ == phi_blocks(func, dv, u0, order@.subrange(0, j as int))[c],
        decreases order@.len() - j,
    {
        let ghost pre = order@.subrange(0, j as int);
        assert(order@.subrange(0, j as int + 1).drop_last() =~= pre);
        proof { lemma_phi_shape(func, dv, u0, pre, func.values@.len()); }
        let bid = order[j];
        let bd = func.blocks.at(bid);
        let ghost ids = bd.insts@;
        let ghost start = phi_blocks(func, dv, u0, pre);
        let mut k: usize = 0;
        while k < bd.insts.len()
            invariant
                func.closed(),
                nb == func.blocks@.len(),
                bid.0 < nb,
                *bd == func.blocks@[bid.0 as int],
                ids == bd.insts@,
                k <= ids.len(),
                dv.len() == nb,
                defs@.len() == nb,
                forall|c: int| 0 <= c < nb ==> (#[trigger] defs@[c])@ == dv[c],
                forall|c: int| 0 <= c < nb ==> (#[trigger] dv[c]).len() == func.values@.len(),
                start.len() == nb,
                forall|c: int| 0 <= c < nb ==> (#[trigger] start[c]).len() == func.values@.len(),
                uses@.len() == nb,
                forall|c: int| 0 <= c < nb ==> (#[trigger] uses@[c])@ == phi_insts(func, dv, start, ids.subrange(0, k as int))[c],
            decreases ids.len() - k,
        {
            assert(ids.subrange(0, k as int + 1).drop_last() =~= ids.subrange(0, k as int));
            proof { lemma_phi_insts_shape(func, dv, start, ids.subrange(0, k as int), func.values@.len()); }
            let id = bd.insts[k];
            assert(id.0 < func.insts@.len());
            let ghost mid = phi_insts(func, dv, start, ids.subrange(0, k as int));
            match func.insts.at(id) {
                Instruction::Phi(ps) => {
                    let mut t: usize = 0;
                    while t < ps.len()
                        invariant
                            nb == func.blocks@.len(),
                            dv.len() == nb,
                            defs@.len() == nb,
                            forall|c: int| 0 <= c < nb ==> (#[trigger] defs@[c])@ == dv[c],
                            forall|c: int| 0 <= c < nb ==> (#[trigger] dv[c]).len() == func.values@.len(),
                            mid.len() == nb,
                            forall|c: int| 0 <= c < nb ==> (#[trigger] mid[c]).len() == func.values@.len(),
                            t <= ps@.len(),
                            uses@.len() == nb,
                            forall|c: int| 0 <= c < nb ==> (#[trigger] uses@[c])@ == phi_pairs(dv, mid, ps@.subrange(0, t as int))[c],
                        decreases ps@.len() - t,
                    {
                        assert(ps@.subrange(0, t as int + 1).drop_last() =~= ps@.subrange(0, t as int));
                        proof { lemma_phi_pairs_shape(dv, mid, ps@.subrange(0, t as int), func.values@.len()); }
                        let (pb, pv) = ps[t];
                        let pbi = pb.0 as usize;
                        let pvi = pv.0 as usize;
                        let ghost cur = phi_pairs(dv, mid, ps@.subrange(0, t as int));
                        if pbi < nb && pvi < defs[pbi].len() && !defs[pbi][pvi] {
                            let mut row = uses[pbi].clone();
                            assert(row@ == uses@[pbi as int]@);
                            row.set(pvi, true);
                            uses.set(pbi, row);
                            assert(uses@[pbi as int]@ =~= cur[pbi as int].update(pvi as int, true));
                        }
                        t = t + 1;
                    }
                    assert(ps@.subrange(0, ps@.len() as int) =~= ps@);
                }
                _ => {}
            }
            k = k + 1;
        }
        assert(ids.subrange(0, ids.len() as int) =~= ids);
        j = j + 1;
    }
    assert(order@.subrange(0, order@.len() as int) =~= order@);
    (defs, uses)
}


// ---------------------------------------------------------------------------
// Liveness

/// The values live into any of the listed blocks.
pub open spec fn succ_union(ins: Seq<Seq<bool>>, ss: Seq<Block>, n: nat) -> Seq<bool>
    decreases ss.len(),
{
    if ss.len() == 0 {
        no_bits(n)
    } else {
        let u = succ_union(ins, ss.drop_last(), n);
        let s = ss.last();
        Seq::new(n, |v: int| u[v] || (s.0 < ins.len() && v < ins[s.0 as int].len() && ins[s.0 as int][v]))
    }
}

/// Live-in and live-out sets, per block number.
pub type LiveState = (Seq<Seq<bool>>, Seq<Seq<bool>>);

pub open spec fn new_live_out(f: &Function, st: LiveState, b: Block) -> Seq<bool> {
    succ_union(st.0, succs(f, b), f.values@.len())
}

pub open spec fn new_live_in(f: &Function, out: Seq<bool>, b: Block) -> Seq<bool> {
    Seq::new(f.values@.len(), |v: int| use_sets(f)[b.0 as int][v] || (out[v] && !def_sets(f)[b.0 as int][v]))
}

/// One block of a round: its live-out set is what its successors have live
/// in, its live-in set what it uses and what is live out and not defined.
pub open spec fn live_block(f: &Function, st: (LiveState, bool), b: Block) -> (LiveState, bool) {
    let out = new_live_out(f, st.0, b);
    let inn = new_live_in(f, out, b);
    let changed = st.1 || out != st.0.1[b.0 as int] || inn != st.0.0[b.0 as int];
    ((st.0.0.update(b.0 as int, inn), st.0.1.update(b.0 as int, out)), changed)
}

pub open spec fn live_steps(f: &Function, st: (LiveState, bool), bs: Seq<Block>) -> (LiveState, bool)
    decreases bs.len(),
{
    if bs.len() == 0 {
        st
    } else {
        live_block(f, live_steps(f, st, bs.drop_last()), bs.last())
    }
}

/// One round visits the blocks in reverse block order.
pub open spec fn live_round(f: &Function, st: LiveState) -> (LiveState, bool) {
    live_steps(f, (st, false), block_order(f).reverse())
}

pub open spec fn live_init(f: &Function) -> LiveState {
    (Seq::new(f.blocks@.len(), |b: int| no_bits(f.values@.len())), Seq::new(f.blocks@.len(), |b: int| no_bits(f.values@.len())))
}

pub open spec fn live_iter(f: &Function, k: nat) -> LiveState
    decreases k,
{
    if k == 0 {
        live_init(f)
    } else {
        live_round(f, live_iter(f, (k - 1) as nat)).0
    }
}

pub open spec fn bit_count(s: Seq<bool>) -> nat
    decreases s.len(),
{
    if s.len() == 0 {
        0
    } else {
        bit_count(s.drop_last()) + if s.last() { 1nat } else { 0nat }
    }
}

pub open spec fn rows_count(ss: Seq<Seq<bool>>) -> nat
    decreases ss.len(),
{
    if ss.len() == 0 {
        0
    } else {
        rows_count(ss.drop_last()) + bit_count(ss.last())
    }
}

pub open spec fn subset(a: Seq<bool>, b: Seq<bool>) -> bool {
    a.len() == b.len() && forall|v: int| 0 <= v < a.len() && #[trigger] a[v] ==> b[v]
}

proof fn lemma_bit_count(a: Seq<bool>, b: Seq<bool>)
    ensures
        bit_count(a) <= a.len(),
        subset(a, b) ==> bit_count(a) <= bit_count(b),
        subset(a, b) && a != b ==> bit_count(a) < bit_count(b),
    decreases a.len(),
{
    if a.len() > 0 {
        lemma_bit_count(a.drop_last(), b.drop_last());
        if subset(a, b) {
            assert(subset(a.drop_last(), b.drop_last())) by {
                assert forall|v: int| 0 <= v < a.len() - 1 && #[trigger] a.drop_last()[v] implies b.drop_last()[v] by {
                    assert(a[v]);
                }
            }
            if a != b {
                if a.drop_last() == b.drop_last() {
                    assert(a.last() != b.last()) by {
                        if a.last() == b.last() {
                            assert forall|i: int| 0 <= i < a.len() implies a[i] == b[i] by {
                                if i < a.len() - 1 {
                                    assert(a.drop_last()[i] == b.drop_last()[i]);
                                }
                            }
                            assert(a =~= b);
                        }
                    }
                }
            }
        }
    } else {
        if subset(a, b) {
            assert(a =~= b);
        }
    }
}

proof fn lemma_rows_count(a: Seq<Seq<bool>>, b: Seq<Seq<bool>>, n: nat)
    requires
        a.len() == b.len(),
        forall|i: int| 0 <= i < a.len() ==> subset(#[trigger] a[i], b[i]),
        forall|i: int| 0 <= i < a.len() ==> (#[trigger] a[i]).len() == n,
    ensures
        rows_count(a) <= rows_count(b),
        a != b ==> rows_count(a) < rows_count(b),
        rows_count(a) <= a.len() * n,
    decreases a.len(),
{
    if a.len() > 0 {
        let k = a.len() - 1;
        assert forall|i: int| 0 <= i < k implies subset(#[trigger] a.drop_last()[i], b.drop_last()[i]) by {
            assert(subset(a[i], b[i]));
        }
        assert forall|i: int| 0 <= i < k implies (#[trigger] a.drop_last()[i]).len() == n by {
            assert(a[i].len() == n);
        }
        lemma_rows_count(a.drop_last(), b.drop_last(), n);
        lemma_bit_count(a.last(), b.last());
        assert(subset(a[k], b[k]));
        if a != b && a.drop_last() == b.drop_last() {
            assert(a.last() != b.last()) by {
                if a.last() == b.last() {
                    assert forall|i: int| 0 <= i < a.len() implies a[i] == b[i] by {
                        if i < a.len() - 1 {
                            assert(a.drop_last()[i] == b.drop_last()[i]);
                        }
                    }
                    assert(a =~= b);
                }
            }
        }
        assert((a.len() - 1) * n + n == a.len() * n) by (nonlinear_arith);
    } else {
        assert(a =~= b);
    }
}

/// The state is below what a round would make of it.
pub open spec fn below(f: &Function, st: LiveState) -> bool {
    let n = f.values@.len();
    &&& st.0.len() == f.blocks@.len()
    &&& st.1.len() == f.blocks@.len()
    &&& forall|b: int| 0 <= b < f.blocks@.len() ==> (#[trigger] st.0[b]).len() == n && st.1[b].len() == n
    &&& forall|b: int| 0 <= b < f.blocks@.len() ==> subset(#[trigger] st.1[b], new_live_out(f, st, Block(b as u32)))
    &&& forall|b: int| 0 <= b < f.blocks@.len() ==> subset(#[trigger] st.0[b], new_live_in(f, st.1[b], Block(b as u32)))
}

pub open spec fn grows(a: LiveState, b: LiveState) -> bool {
    &&& a.0.len() == b.0.len()
    &&& a.1.len() == b.1.len()
    &&& forall|i: int| 0 <= i < a.0.len() ==> subset(#[trigger] a.0[i], b.0[i])
    &&& forall|i: int| 0 <= i < a.1.len() ==> subset(#[trigger] a.1[i], b.1[i])
}

proof fn lemma_succ_union(ins1: Seq<Seq<bool>>, ins2: Seq<Seq<bool>>, ss: Seq<Block>, n: nat)
    requires
        ins1.len() == ins2.len(),
        forall|i: int| 0 <= i < ins1.len() ==> subset(#[trigger] ins1[i], ins2[i]),
    ensures
        succ_union(ins1, ss, n).len() == n,
        subset(succ_union(ins1, ss, n), succ_union(ins2, ss, n)),
    decreases ss.len(),
{
    if ss.len() > 0 {
        lemma_succ_union(ins1, ins2, ss.drop_last(), n);
        let s = ss.last();
        if s.0 < ins1.len() {
            assert(subset(ins1[s.0 as int], ins2[s.0 as int]));
        }
    }
}

proof fn lemma_live_block(f: &Function, st: LiveState, flag: bool, b: Block)
    requires
        f.wf(),
        b.0 < f.blocks@.len(),
        below(f, st),
        f.values@.len() == f.values@.len(),
        forall|c: int| 0 <= c < f.blocks@.len() ==> (#[trigger] use_sets(f)[c]).len() == f.values@.len()
            && def_sets(f)[c].len() == f.values@.len(),
    ensures
        below(f, live_block(f, (st, flag), b).0),
        grows(st, live_block(f, (st, flag), b).0),
        live_block(f, (st, flag), b).1 == (flag || live_block(f, (st, flag), b).0 != st),
{
    let n = f.values@.len();
    let out = new_live_out(f, st, b);
    let inn = new_live_in(f, out, b);
    let st2 = (st.0.update(b.0 as int, inn), st.1.update(b.0 as int, out));
    lemma_succ_union(st.0, st.0, succs(f, b), n);
    let bi = b.0 as int;
    assert(subset(st.1[bi], out)) by {
        assert(Block(bi as u32) == b);
    }
    assert(subset(st.0[bi], inn)) by {
        assert(Block(bi as u32) == b);
        assert(subset(st.0[bi], new_live_in(f, st.1[bi], b)));
    }
    assert forall|i: int| 0 <= i < st.0.len() implies subset(#[trigger] st.0[i], st2.0[i]) by {
        if i != bi {
            assert forall|v: int| 0 <= v < st.0[i].len() && #[trigger] st.0[i][v] implies st2.0[i][v] by {}
        }
    }
    assert forall|i: int| 0 <= i < st.1.len() implies subset(#[trigger] st.1[i], st2.1[i]) by {
        if i != bi {
            assert forall|v: int| 0 <= v < st.1[i].len() && #[trigger] st.1[i][v] implies st2.1[i][v] by {}
        }
    }
    assert forall|c: int| 0 <= c < f.blocks@.len() implies subset(#[trigger] st2.1[c], new_live_out(f, st2, Block(c as u32))) by {
        lemma_succ_union(st.0, st2.0, succs(f, Block(c as u32)), n);
        if c == bi {
            assert(Block(c as u32) == b);
            lemma_succ_union(st.0, st2.0, succs(f, b), n);
        } else {
            assert(subset(st.1[c], new_live_out(f, st, Block(c as u32))));
        }
    }
    assert forall|c: int| 0 <= c < f.blocks@.len() implies subset(#[trigger] st2.0[c], new_live_in(f, st2.1[c], Block(c as u32))) by {
        if c == bi {
            assert(Block(c as u32) == b);
        } else {
            assert(subset(st.0[c], new_live_in(f, st.1[c], Block(c as u32))));
        }
    }
    if live_block(f, (st, flag), b).1 && !flag {
        if out != st.1[bi] {
            assert(st2.1[bi] != st.1[bi]);
        } else {
            assert(st2.0[bi] != st.0[bi]);
        }
    }
    if !live_block(f, (st, flag), b).1 {
        assert(st2.0 =~= st.0);
        assert(st2.1 =~= st.1);
    }
}


proof fn lemma_sets_len(f: &Function)
    requires
        f.wf(),
    ensures
        forall|c: int| 0 <= c < f.blocks@.len() ==> (#[trigger] use_sets(f)[c]).len() == f.values@.len()
            && def_sets(f)[c].len() == f.values@.len(),
{
    let n = f.values@.len();
    let u0 = block_uses(f);
    assert forall|c: int| 0 <= c < f.blocks@.len() implies (#[trigger] u0[c]).len() == n && def_sets(f)[c].len() == n by {
        lemma_du_len(f, (no_bits(n), no_bits(n)), f.blocks@[c].insts@);
    }
    lemma_phi_shape(f, def_sets(f), u0, block_order(f), n);
    assert forall|c: int| 0 <= c < f.blocks@.len() implies (#[trigger] use_sets(f)[c]).len() == n
        && def_sets(f)[c].len() == n by {
        assert(use_sets(f) == phi_blocks(f, def_sets(f), u0, block_order(f)));
        assert(u0[c].len() == n);
    }
}

pub open spec fn rows(v: Seq<Vec<bool>>) -> Seq<Seq<bool>> {
    v.map_values(|x: Vec<bool>| x@)
}

pub open spec fn live_total(st: LiveState) -> nat {
    rows_count(st.0) + rows_count(st.1)
}

fn zero_bits(n: usize) -> (r: Vec<bool>)
    ensures
        r@ == no_bits(n as nat),
{
    let mut r: Vec<bool> = Vec::new();
    let mut i: usize = 0;
    while i < n
        invariant
            i <= n,
            r@ == no_bits(i as nat),
        decreases n - i,
    {
        r.push(false);
        i = i + 1;
        assert(r@ =~= no_bits(i as nat));
    }
    r
}

fn bits_eq(a: &Vec<bool>, b: &Vec<bool>) -> (r: bool)
    ensures
        r == (a@ == b@),
{
    if a.len() != b.len() {
        return false;
    }
    let mut i: usize = 0;
    while i < a.len()
        invariant
            a@.len() == b@.len(),
            i <= a@.len(),
            forall|k: int| 0 <= k < i ==> a@[k] == b@[k],
        decreases a@.len() - i,
    {
        if a[i] != b[i] {
            return false;
        }
        i = i + 1;
    }
    assert(a@ =~= b@);
    true
}

/// Live-in and live-out sets per block, computed round after round until a
/// round changes nothing.
pub fn liveness(func: &Function, order: &Vec<Block>, defs: &Vec<Vec<bool>>, uses: &Vec<Vec<bool>>)
    -> (r: (Vec<Vec<bool>>, Vec<Vec<bool>>))
    requires
        func.closed(),
        order@ == block_order(func),
        defs@.len() == func.blocks@.len(),
        uses@.len() == func.blocks@.len(),
        forall|b: int| 0 <= b < func.blocks@.len() ==> (#[trigger] defs@[b])@ == def_sets(func)[b],
        forall|b: int| 0 <= b < func.blocks@.len() ==> (#[trigger] uses@[b])@ == use_sets(func)[b],
    ensures
        r.0@.len() == func.blocks@.len(),
        r.1@.len() == func.blocks@.len(),
        exists|k: nat| (rows(r.0@), rows(r.1@)) == live_iter(func, k),
        !live_round(func, (rows(r.0@), rows(r.1@))).1,
{
    let nb = func.blocks.len();
    let nv = func.values.len();
    let mut live_in: Vec<Vec<bool>> = Vec::new();
    let mut live_out: Vec<Vec<bool>> = Vec::new();
    let mut b: usize = 0;
    while b < nb
        invariant
            b <= nb,
            live_in@.len() == b,
            live_out@.len() == b,
            forall|c: int| 0 <= c < b ==> (#[trigger] live_in@[c])@ == no_bits(nv as nat) && live_out@[c]@ == no_bits(nv as nat),
        decreases nb - b,
    {
        live_in.push(zero_bits(nv));
        live_out.push(zero_bits(nv));
        b = b + 1;
    }
    let ghost mut k: nat = 0;
    assert(rows(live_in@) =~= live_iter(func, 0).0);
    assert(rows(live_out@) =~= live_iter(func, 0).1);
    proof {
        lemma_block_order(func);
        lemma_sets_len(func);
        let st = live_iter(func, 0);
        assert forall|c: int| 0 <= c < nb implies subset(#[trigger] st.1[c], new_live_out(func, st, Block(c as u32))) by {
            lemma_succ_union(st.0, st.0, succs(func, Block(c as u32)), nv as nat);
        }
        assert forall|c: int| 0 <= c < nb implies subset(#[trigger] st.0[c], new_live_in(func, st.1[c], Block(c as u32))) by {}
        lemma_rows_count(st.0, st.0, nv as nat);
        lemma_rows_count(st.1, st.1, nv as nat);
        assert((nb as nat) * (nv as nat) + (nb as nat) * (nv as nat) == 2 * (nb as nat) * (nv as nat)) by (nonlinear_arith);
    }
    assert(forall|c: int| 0 <= c < nb ==> (#[trigger] use_sets(func)[c]).len() == nv && def_sets(func)[c].len() == nv);
    let ghost bound: nat = 2 * (nb as nat) * (nv as nat);
    let n = order.len();
    let ghost rev = order@.reverse();
    let mut changed = true;
    while changed
        invariant
            func.closed(),
            nb == func.blocks@.len(),
            nv == func.values@.len(),
            order@ == block_order(func),
            n == order@.len(),
            rev == order@.reverse(),
            forall|j: int| 0 <= j < order@.len() ==> (#[trigger] order@[j]).0 < nb,
            forall|c: int| 0 <= c < nb ==> (#[trigger] use_sets(func)[c]).len() == nv && def_sets(func)[c].len() == nv,
            defs@.len() == nb,
            uses@.len() == nb,
            forall|c: int| 0 <= c < nb ==> (#[trigger] defs@[c])@ == def_sets(func)[c],
            forall|c: int| 0 <= c < nb ==> (#[trigger] uses@[c])@ == use_sets(func)[c],
            live_in@.len() == nb,
            live_out@.len() == nb,
            forall|c: int| 0 <= c < nb ==> (#[trigger] live_in@[c])@.len() == nv && live_out@[c]@.len() == nv,
            (rows(live_in@), rows(live_out@)) == live_iter(func, k),
            below(func, live_iter(func, k)),
            bound == 2 * (nb as nat) * (nv as nat),
            live_total(live_iter(func, k)) <= bound,
            !changed ==> k > 0 && !live_round(func, live_iter(func, (k - 1) as nat)).1
                && live_iter(func, k) == live_iter(func, (k - 1) as nat),
        decreases bound - live_total(live_iter(func, k)), if changed { 1int } else { 0int },
    {
        let ghost st0 = live_iter(func, k);
        changed = false;
        let mut i: usize = 0;
        assert(forall|c: int| 0 <= c < nb ==> (#[trigger] use_sets(func)[c]).len() == nv && def_sets(func)[c].len() == nv);
        assert(forall|c: int| 0 <= c < nb ==> (#[trigger] live_in@[c])@.len() == nv && live_out@[c]@.len() == nv);
        while i < n
            invariant
                func.closed(),
                nb == func.blocks@.len(),
                nv == func.values@.len(),
                n == order@.len(),
                rev == order@.reverse(),
                i <= n,
                forall|j: int| 0 <= j < order@.len() ==> (#[trigger] order@[j]).0 < nb,
                forall|c: int| 0 <= c < nb ==> (#[trigger] use_sets(func)[c]).len() == nv && def_sets(func)[c].len() == nv,
                defs@.len() == nb,
                uses@.len() == nb,
                forall|c: int| 0 <= c < nb ==> (#[trigger] defs@[c])@ == def_sets(func)[c],
                forall|c: int| 0 <= c < nb ==> (#[trigger] uses@[c])@ == use_sets(func)[c],
                live_in@.len() == nb,
                live_out@.len() == nb,
                forall|c: int| 0 <= c < nb ==> (#[trigger] live_in@[c])@.len() == nv && live_out@[c]@.len() == nv,
                ((rows(live_in@), rows(live_out@)), changed) == live_steps(func, (st0, false), rev.subrange(0, i as int)),
                below(func, (rows(live_in@), rows(live_out@))),
                below(func, st0),
                live_total(st0) <= live_total((rows(live_in@), rows(live_out@))),
                changed ==> live_total(st0) < live_total((rows(live_in@), rows(live_out@))),
                !changed ==> (rows(live_in@), rows(live_out@)) == st0,
            decreases n - i,
        {
            let ghost cur = (rows(live_in@), rows(live_out@));
            let ghost old_in = live_in@;
            let ghost old_out = live_out@;
            assert(rev.subrange(0, i as int + 1).drop_last() =~= rev.subrange(0, i as int));
            let b = order[n - 1 - i];
            assert(rev[i as int] == b);
            let succ = successors_of(func, b);
            // the successors' live-in values
            let mut out = zero_bits(nv);
            let mut t: usize = 0;
            while t < succ.len()
                invariant
                    nb == live_in@.len(),
                    forall|c: int| 0 <= c < nb ==> (#[trigger] live_in@[c])@.len() == nv,
                    t <= succ@.len(),
                    out@ == succ_union(rows(live_in@), succ@.subrange(0, t as int), nv as nat),
                    out@.len() == nv,
                decreases succ@.len() - t,
            {
                assert(succ@.subrange(0, t as int + 1).drop_last() =~= succ@.subrange(0, t as int));
                let s = succ[t];
                let ghost prev = out@;
                if (s.0 as usize) < nb {
                    let row = &live_in[s.0 as usize];
                    let mut v: usize = 0;
                    while v < nv
                        invariant
                            nv == out@.len(),
                            row@.len() == nv,
                            prev.len() == nv,
                            v <= nv,
                            forall|w: int| 0 <= w < v ==> #[trigger] out@[w] == (prev[w] || row@[w]),
                            forall|w: int| v <= w < nv ==> #[trigger] out@[w] == prev[w],
                        decreases nv - v,
                    {
                        if row[v] {
                            out.set(v, true);
                        }
                        v = v + 1;
                    }
                }
                assert(out@ =~= succ_union(rows(live_in@), succ@.subrange(0, t as int + 1), nv as nat));
                t = t + 1;
            }
            assert(succ@.subrange(0, succ@.len() as int) =~= succ@);
            assert(out@ == new_live_out(func, cur, b));
            // the block's live-in values
            let du = &defs[b.0 as usize];
            let us = &uses[b.0 as usize];
            let mut inn = zero_bits(nv);
            let mut v: usize = 0;
            while v < nv
                invariant
                    nv == inn@.len(),
                    nv == out@.len(),
                    du@ == def_sets(func)[b.0 as int],
                    us@ == use_sets(func)[b.0 as int],
                    du@.len() == nv,
                    us@.len() == nv,
                    v <= nv,
                    forall|w: int| 0 <= w < v ==> #[trigger] inn@[w] == (us@[w] || (out@[w] && !du@[w])),
                    forall|w: int| v <= w < nv ==> !(#[trigger] inn@[w]),
                decreases nv - v,
            {
                if us[v] || (out[v] && !du[v]) {
                    inn.set(v, true);
                }
                v = v + 1;
            }
            assert(inn@ =~= new_live_in(func, out@, b));
            if !bits_eq(&out, &live_out[b.0 as usize]) {
                changed = true;
            }
            if !bits_eq(&inn, &live_in[b.0 as usize]) {
                changed = true;
            }
            live_out.set(b.0 as usize, out);
            live_in.set(b.0 as usize, inn);
            assert forall|c: int| 0 <= c < nb implies (#[trigger] live_in@[c])@.len() == nv && live_out@[c]@.len() == nv by {
                if c != b.0 as int {
                    assert(live_in@[c] == old_in[c]);
                    assert(live_out@[c] == old_out[c]);
                }
            }
            proof {
                let flag = live_steps(func, (st0, false), rev.subrange(0, i as int)).1;
                lemma_live_block(func, cur, flag, b);
                let nxt = live_block(func, (cur, flag), b);
                assert(rows(live_in@) =~= nxt.0.0);
                assert(rows(live_out@) =~= nxt.0.1);
                assert forall|c: int| 0 <= c < nb implies (#[trigger] cur.0[c]).len() == nv by {}
                assert forall|c: int| 0 <= c < nb implies (#[trigger] cur.1[c]).len() == nv by {}
                lemma_rows_count(cur.0, nxt.0.0, nv as nat);
                lemma_rows_count(cur.1, nxt.0.1, nv as nat);
            }
            i = i + 1;
        }
        assert(rev.subrange(0, n as int) =~= rev);
        proof {
            let st1 = (rows(live_in@), rows(live_out@));
            assert(live_iter(func, k + 1) == live_round(func, st0).0);
            assert forall|c: int| 0 <= c < nb implies (#[trigger] st1.0[c]).len() == nv by {}
            assert forall|c: int| 0 <= c < nb implies (#[trigger] st1.1[c]).len() == nv by {}
            lemma_rows_count(st1.0, st1.0, nv as nat);
            lemma_rows_count(st1.1, st1.1, nv as nat);
            assert((nb as nat) * (nv as nat) + (nb as nat) * (nv as nat) == bound) by (nonlinear_arith)
                requires bound == 2 * (nb as nat) * (nv as nat);
            k = k + 1;
        }
    }
    proof {
        assert(live_round(func, live_iter(func, (k - 1) as nat)).0 == live_iter(func, k));
    }
    (live_in, live_out)
}


// ---------------------------------------------------------------------------
// Live intervals

/// Liveness as the rounds leave it once a round changes nothing.
pub open spec fn live_fixpoint(f: &Function, st: LiveState) -> bool {
    (exists|k: nat| st == live_iter(f, k)) && !live_round(f, st).1
}

pub open spec fn max_usize(a: usize, b: usize) -> usize {
    if a >= b { a } else { b }
}

pub open spec fn min_usize(a: usize, b: usize) -> usize {
    if a <= b { a } else { b }
}

/// The number at which a value is defined: its instruction's number, or 0
/// for a parameter (and for an instruction without a place).
pub open spec fn def_index(f: &Function, index: Seq<usize>, v: int) -> usize {
    match f.values@[v].def {
        ValueDef::Inst(i) => if i.0 < index.len() { index[i.0 as int] } else { 0 },
        ValueDef::Param(_) => 0,
    }
}

pub open spec fn iv_init(f: &Function, index: Seq<usize>) -> Seq<(usize, usize)> {
    Seq::new(f.values@.len(), |v: int| (def_index(f, index, v), def_index(f, index, v)))
}

pub open spec fn extend_end(iv: Seq<(usize, usize)>, v: Value, e: usize) -> Seq<(usize, usize)> {
    if v.0 < iv.len() {
        iv.update(v.0 as int, (iv[v.0 as int].0, max_usize(iv[v.0 as int].1, e)))
    } else {
        iv
    }
}

pub open spec fn iv_ops(iv: Seq<(usize, usize)>, ops: Seq<Value>, idx: usize) -> Seq<(usize, usize)>
    decreases ops.len(),
{
    if ops.len() == 0 {
        iv
    } else {
        extend_end(iv_ops(iv, ops.drop_last(), idx), ops.last(), idx)
    }
}

pub open spec fn iv_pairs(iv: Seq<(usize, usize)>, ps: Seq<(Block, Value)>, ranges: Seq<(usize, usize)>) -> Seq<(usize, usize)>
    decreases ps.len(),
{
    if ps.len() == 0 {
        iv
    } else {
        let p = ps.last();
        let prev = iv_pairs(iv, ps.drop_last(), ranges);
        if p.0.0 < ranges.len() { extend_end(prev, p.1, ranges[p.0.0 as int].1) } else { prev }
    }
}

/// A use extends a value's interval to the using instruction; a phi input
/// to the end of its predecessor block.
pub open spec fn iv_inst(f: &Function, num: NumState, iv: Seq<(usize, usize)>, id: Inst) -> Seq<(usize, usize)> {
    match f.insts@[id.0 as int] {
        Instruction::Phi(ps) => iv_pairs(iv, ps@, num.1),
        _ => iv_ops(iv, f.insts@[id.0 as int].operands(), num.0[id.0 as int]),
    }
}

pub open spec fn iv_insts(f: &Function, num: NumState, iv: Seq<(usize, usize)>, ids: Seq<Inst>) -> Seq<(usize, usize)>
    decreases ids.len(),
{
    if ids.len() == 0 {
        iv
    } else {
        iv_inst(f, num, iv_insts(f, num, iv, ids.drop_last()), ids.last())
    }
}

pub open spec fn iv_uses(f: &Function, num: NumState, iv: Seq<(usize, usize)>, order: Seq<Block>) -> Seq<(usize, usize)>
    decreases order.len(),
{
    if order.len() == 0 {
        iv
    } else {
        iv_insts(f, num, iv_uses(f, num, iv, order.drop_last()), f.blocks@[order.last().0 as int].insts@)
    }
}

/// A value live into a block covers the block's start; one live out of it
/// covers its end.
pub open spec fn iv_block(iv: Seq<(usize, usize)>, lin: Seq<bool>, lout: Seq<bool>, range: (usize, usize)) -> Seq<(usize, usize)> {
    let iv1 = Seq::new(iv.len(), |v: int| if v < lin.len() && lin[v] {
        (min_usize(iv[v].0, range.0), max_usize(iv[v].1, range.0))
    } else {
        iv[v]
    });
    Seq::new(iv.len(), |v: int| if v < lout.len() && lout[v] { (iv1[v].0, max_usize(iv1[v].1, range.1)) } else { iv1[v] })
}

pub open spec fn iv_live(iv: Seq<(usize, usize)>, live: LiveState, ranges: Seq<(usize, usize)>, nb: int) -> Seq<(usize, usize)>
    decreases nb,
{
    if nb <= 0 {
        iv
    } else {
        iv_block(iv_live(iv, live, ranges, nb - 1), live.0[nb - 1], live.1[nb - 1], ranges[nb - 1])
    }
}

/// Each value's live interval, as a first and last instruction number.
pub open spec fn live_intervals(f: &Function, live: LiveState) -> Seq<(usize, usize)> {
    let num = number_blocks(f, block_order(f));
    iv_live(iv_uses(f, num, iv_init(f, num.0), block_order(f)), live, num.1, f.blocks@.len() as int)
}

proof fn lemma_iv_len(f: &Function, num: NumState, iv: Seq<(usize, usize)>, order: Seq<Block>)
    ensures
        iv_uses(f, num, iv, order).len() == iv.len(),
    decreases order.len(),
{
    if order.len() > 0 {
        lemma_iv_len(f, num, iv, order.drop_last());
        lemma_iv_insts_len(f, num, iv_uses(f, num, iv, order.drop_last()), f.blocks@[order.last().0 as int].insts@);
    }
}

proof fn lemma_iv_insts_len(f: &Function, num: NumState, iv: Seq<(usize, usize)>, ids: Seq<Inst>)
    ensures
        iv_insts(f, num, iv, ids).len() == iv.len(),
    decreases ids.len(),
{
    if ids.len() > 0 {
        lemma_iv_insts_len(f, num, iv, ids.drop_last());
        let prev = iv_insts(f, num, iv, ids.drop_last());
        match f.insts@[ids.last().0 as int] {
            Instruction::Phi(ps) => lemma_iv_pairs_len(prev, ps@, num.1),
            _ => lemma_iv_ops_len(prev, f.insts@[ids.last().0 as int].operands(), num.0[ids.last().0 as int]),
        }
    }
}

proof fn lemma_iv_pairs_len(iv: Seq<(usize, usize)>, ps: Seq<(Block, Value)>, ranges: Seq<(usize, usize)>)
    ensures
        iv_pairs(iv, ps, ranges).len() == iv.len(),
    decreases ps.len(),
{
    if ps.len() > 0 {
        lemma_iv_pairs_len(iv, ps.drop_last(), ranges);
    }
}

proof fn lemma_iv_ops_len(iv: Seq<(usize, usize)>, ops: Seq<Value>, idx: usize)
    ensures
        iv_ops(iv, ops, idx).len() == iv.len(),
    decreases ops.len(),
{
    if ops.len() > 0 {
        lemma_iv_ops_len(iv, ops.drop_last(), idx);
    }
}

proof fn lemma_iv_live_len(iv: Seq<(usize, usize)>, live: LiveState, ranges: Seq<(usize, usize)>, nb: int)
    ensures
        iv_live(iv, live, ranges, nb).len() == iv.len(),
    decreases nb,
{
    if nb > 0 {
        lemma_iv_live_len(iv, live, ranges, nb - 1);
    }
}

fn extend(iv: &mut Vec<(usize, usize)>, v: Value, e: usize)
    ensures
        final(iv)@ == extend_end(old(iv)@, v, e),
{
    let i = v.0 as usize;
    if i < iv.len() {
        let (s, old_e) = iv[i];
        let ne = if old_e >= e { old_e } else { e };
        iv.set(i, (s, ne));
    }
}

/// The live interval of each value.
pub fn compute_intervals(
    func: &Function,
    order: &Vec<Block>,
    num: &Numbering,
    live_in: &Vec<Vec<bool>>,
    live_out: &Vec<Vec<bool>>,
) -> (r: Vec<(usize, usize)>)
    requires
        func.closed(),
        order@ == block_order(func),
        (num.inst_index@, num.block_range@, num.is_call@, num.next as nat) == number_blocks(func, order@),
        live_in@.len() == func.blocks@.len(),
        live_out@.len() == func.blocks@.len(),
    ensures
        r@ == live_intervals(func, (rows(live_in@), rows(live_out@))),
{
    let ghost nums = (num.inst_index@, num.block_range@, num.is_call@, num.next as nat);
    proof {
        lemma_number_blocks_shape(func, order@);
        lemma_block_order(func);
    }
    let nv = func.values.len();
    let vals = func.values.as_slice();
    let mut iv: Vec<(usize, usize)> = Vec::new();
    let mut v: usize = 0;
    while v < nv
        invariant
            func.wf(),
            nv == func.values@.len(),
            vals@ == func.values@,
            num.inst_index@.len() == func.insts@.len(),
            v <= nv,
            iv@ == iv_init(func, num.inst_index@).subrange(0, v as int),
        decreases nv - v,
    {
        let d = match vals[v].def {
            ValueDef::Inst(i) => if (i.0 as usize) < num.inst_index.len() { num.inst_index[i.0 as usize] } else { 0 },
            ValueDef::Param(_) => 0,
        };
        iv.push((d, d));
        v = v + 1;
        assert(iv@ =~= iv_init(func, num.inst_index@).subrange(0, v as int));
    }
    assert(iv@ =~= iv_init(func, num.inst_index@));
    let ghost iv0 = iv@;
    let mut j: usize = 0;
    while j < order.len()
        invariant
            func.closed(),
            order@ == block_order(func),
            forall|j: int| 0 <= j < order@.len() ==> (#[trigger] order@[j]).0 < func.blocks@.len(),
            nums == number_blocks(func, order@),
            nums.0 == num.inst_index@,
            nums.1 == num.block_range@,
            num.inst_index@.len() == func.insts@.len(),
            num.block_range@.len() == func.blocks@.len(),
            j <= order@.len(),
            iv@ == iv_uses(func, nums, iv0, order@.subrange(0, j as int)),
        decreases order@.len() - j,
    {
        assert(order@.subrange(0, j as int + 1).drop_last() =~= order@.subrange(0, j as int));
        let bd = func.blocks.at(order[j]);
        let ghost ids = bd.insts@;
        let ghost start = iv@;
        let mut k: usize = 0;
        while k < bd.insts.len()
            invariant
                func.closed(),
                *bd == func.blocks@[order@[j as int].0 as int],
                order@[j as int].0 < func.blocks@.len(),
                ids == bd.insts@,
                k <= ids.len(),
                nums.0 == num.inst_index@,
                nums.1 == num.block_range@,
                num.inst_index@.len() == func.insts@.len(),
                num.block_range@.len() == func.blocks@.len(),
                iv@ == iv_insts(func, nums, start, ids.subrange(0, k as int)),
            decreases ids.len() - k,
        {
            assert(ids.subrange(0, k as int + 1).drop_last() =~= ids.subrange(0, k as int));
            let id = bd.insts[k];
            assert(id.0 < func.insts@.len());
            let idx = num.inst_index[id.0 as usize];
            let ghost mid = iv@;
            match func.insts.at(id) {
                Instruction::Phi(ps) => {
                    assert(crate::parser::inst_refs_in(func.insts@[id.0 as int], func.values@.len() as int, func.blocks@.len() as int));
                    assert forall|t: int| 0 <= t < ps@.len() implies (#[trigger] ps@[t]).0.0 < func.blocks@.len() by {
                        assert(crate::parser::inst_blocks(func.insts@[id.0 as int])[t] == ps@[t].0);
                    }
                    let mut t: usize = 0;
                    while t < ps.len()
                        invariant
                            t <= ps@.len(),
                            num.block_range@.len() == func.blocks@.len(),
                            nums.1 == num.block_range@,
                            forall|t: int| 0 <= t < ps@.len() ==> (#[trigger] ps@[t]).0.0 < func.blocks@.len(),
                            iv@ == iv_pairs(mid, ps@.subrange(0, t as int), nums.1),
                        decreases ps@.len() - t,
                    {
                        assert(ps@.subrange(0, t as int + 1).drop_last() =~= ps@.subrange(0, t as int));
                        let (pb, pv) = ps[t];
                        let e = num.block_range[pb.0 as usize].1;
                        extend(&mut iv, pv, e);
                        t = t + 1;
                    }
                    assert(ps@.subrange(0, ps@.len() as int) =~= ps@);
                }
                inst => {
                    let ops = operands_of(inst);
                    let mut t: usize = 0;
                    while t < ops.len()
                        invariant
                            t <= ops@.len(),
                            ops@ == inst.operands(),
                            iv@ == iv_ops(mid, ops@.subrange(0, t as int), idx),
                        decreases ops@.len() - t,
                    {
                        assert(ops@.subrange(0, t as int + 1).drop_last() =~= ops@.subrange(0, t as int));
                        extend(&mut iv, ops[t], idx);
                        t = t + 1;
                    }
                    assert(ops@.subrange(0, ops@.len() as int) =~= ops@);
                }
            }
            k = k + 1;
        }
        assert(ids.subrange(0, ids.len() as int) =~= ids);
        j = j + 1;
    }
    assert(order@.subrange(0, order@.len() as int) =~= order@);
    let ghost iv1 = iv@;
    proof { lemma_iv_len(func, nums, iv0, order@); }
    let nb = func.blocks.len();
    let mut b: usize = 0;
    while b < nb
        invariant
            nb == func.blocks@.len(),
            nv == iv1.len(),
            b <= nb,
            live_in@.len() == nb,
            live_out@.len() == nb,
            num.block_range@.len() == nb,
            nums.1 == num.block_range@,
            iv@ == iv_live(iv1, (rows(live_in@), rows(live_out@)), nums.1, b as int),
            iv@.len() == nv,
        decreases nb - b,
    {
        let (bs, be) = num.block_range[b];
        let lin = &live_in[b];
        let lout = &live_out[b];
        let ghost prev = iv@;
        let mut v: usize = 0;
        while v < nv
            invariant
                nv == iv@.len(),
                prev.len() == nv,
                v <= nv,
                forall|w: int| 0 <= w < v ==> #[trigger] iv@[w] == (if w < lin@.len() && lin@[w] {
                    (min_usize(prev[w].0, bs), max_usize(prev[w].1, bs))
                } else {
                    prev[w]
                }),
                forall|w: int| v <= w < nv ==> #[trigger] iv@[w] == prev[w],
            decreases nv - v,
        {
            if v < lin.len() && lin[v] {
                let (s, e) = iv[v];
                let ns = if s <= bs { s } else { bs };
                let ne = if e >= bs { e } else { bs };
                iv.set(v, (ns, ne));
            }
            v = v + 1;
        }
        let ghost mid = iv@;
        let mut v: usize = 0;
        while v < nv
            invariant
                nv == iv@.len(),
                mid.len() == nv,
                v <= nv,
                forall|w: int| 0 <= w < v ==> #[trigger] iv@[w] == (if w < lout@.len() && lout@[w] {
                    (mid[w].0, max_usize(mid[w].1, be))
                } else {
                    mid[w]
                }),
                forall|w: int| v <= w < nv ==> #[trigger] iv@[w] == mid[w],
            decreases nv - v,
        {
            if v < lout.len() && lout[v] {
                let (s, e) = iv[v];
                let ne = if e >= be { e } else { be };
                iv.set(v, (s, ne));
            }
            v = v + 1;
        }
        proof {
            let live = (rows(live_in@), rows(live_out@));
            assert(live.0[b as int] == lin@);
            assert(live.1[b as int] == lout@);
            let m = Seq::new(prev.len(), |w: int| if w < lin@.len() && lin@[w] {
                (min_usize(prev[w].0, bs), max_usize(prev[w].1, bs))
            } else {
                prev[w]
            });
            assert(mid =~= m);
            assert(iv@ =~= iv_block(prev, lin@, lout@, (bs, be)));
        }
        b = b + 1;
    }
    iv
}


// ---------------------------------------------------------------------------
// Scan order

/// An interval with its value: (value, start, end).
pub type Entry = (Value, usize, usize);

/// By start, then by value number (then by end, which makes the order total).
pub open spec fn entry_leq(a: Entry, b: Entry) -> bool {
    a.1 < b.1 || (a.1 == b.1 && (a.0.0 < b.0.0 || (a.0.0 == b.0.0 && a.2 <= b.2)))
}

pub open spec fn start_order() -> spec_fn(Entry, Entry) -> bool {
    |a: Entry, b: Entry| entry_leq(a, b)
}

pub open spec fn entries(iv: Seq<(usize, usize)>) -> Seq<Entry> {
    Seq::new(iv.len(), |v: int| (Value(v as u32), iv[v].0, iv[v].1))
}

/// The intervals in scan order.
pub open spec fn scan_order(iv: Seq<(usize, usize)>) -> Seq<Entry> {
    entries(iv).sort_by(start_order())
}

pub proof fn lemma_start_order_total()
    ensures
        vstd::relations::total_ordering(start_order()),
{
    let r = start_order();
    assert forall|x: Entry, y: Entry| #[trigger] r(x, y) && #[trigger] r(y, x) implies x == y by {
        assert(entry_leq(x, y) && entry_leq(y, x));
        assert(x.0.0 == y.0.0);
        assert(x.0 == y.0);
    }
    assert forall|x: Entry, y: Entry, z: Entry| #[trigger] r(x, y) && #[trigger] r(y, z) implies r(x, z) by {
        assert(entry_leq(x, y) && entry_leq(y, z));
    }
    assert forall|x: Entry, y: Entry| #[trigger] r(x, y) || #[trigger] r(y, x) by {}
    assert forall|x: Entry| #[trigger] r(x, x) by {}
}

fn entry_le(a: &Entry, b: &Entry) -> (r: bool)
    ensures
        r == entry_leq(*a, *b),
{
    a.1 < b.1 || (a.1 == b.1 && (a.0.0 < b.0.0 || (a.0.0 == b.0.0 && a.2 <= b.2)))
}

/// The intervals sorted into scan order.
pub fn sort_intervals(iv: &Vec<(usize, usize)>) -> (r: Vec<Entry>)
    requires
        iv@.len() <= u32::MAX + 1,
    ensures
        r@ == scan_order(iv@),
{
    let ghost init = entries(iv@);
    let ghost leq = start_order();
    proof { lemma_start_order_total(); }
    let mut s: Vec<Entry> = Vec::new();
    let mut i: usize = 0;
    assert(init.subrange(0, 0) =~= s@);
    while i < iv.len()
        invariant
            iv@.len() <= u32::MAX + 1,
            init == entries(iv@),
            leq == start_order(),
            vstd::relations::total_ordering(leq),
            i <= iv@.len(),
            vstd::relations::sorted_by(s@, leq),
            s@.to_multiset() == init.subrange(0, i as int).to_multiset(),
        decreases iv@.len() - i,
    {
        let x: Entry = (Value(i as u32), iv[i].0, iv[i].1);
        assert(x == init[i as int]);
        // the first place whose entry comes after x
        let mut p: usize = 0;
        while p < s.len() && entry_le(&s[p], &x)
            invariant
                p <= s@.len(),
                forall|q: int| 0 <= q < p ==> entry_leq(#[trigger] s@[q], x),
            decreases s@.len() - p,
        {
            p = p + 1;
        }
        let ghost old_s = s@;
        s.insert(p, x);
        proof {
            assert(s@ == old_s.insert(p as int, x));
            vstd::seq_lib::to_multiset_insert(old_s, p as int, x);
            assert(init.subrange(0, i as int + 1) =~= init.subrange(0, i as int).push(x));
            init.subrange(0, i as int).to_multiset_ensures();
            assert forall|a: int, b: int| 0 <= a < b < s@.len() implies #[trigger] leq(s@[a], s@[b]) by {
                if p < old_s.len() {
                    assert(!entry_leq(old_s[p as int], x));
                    assert(entry_leq(x, old_s[p as int]));
                }
                if a < p && b < p {
                    assert(leq(old_s[a], old_s[b]));
                } else if a < p && b == p {
                } else if a < p && b > p {
                    assert(leq(old_s[a], old_s[b - 1]));
                } else if a == p {
                    assert(leq(old_s[p as int], old_s[b - 1]) || b - 1 == p);
                } else {
                    assert(leq(old_s[a - 1], old_s[b - 1]));
                }
            }
        }
        i = i + 1;
    }
    proof {
        assert(init.subrange(0, iv@.len() as int) =~= init);
        init.lemma_sort_by_ensures(leq);
        vstd::seq_lib::lemma_sorted_unique(s@, init.sort_by(leq), leq);
    }
    s
}


// ---------------------------------------------------------------------------
// Linear scan

/// A value holding a register while its interval lasts: (value, start, end, allocation).
pub type Active = (Value, usize, usize, Allocation);

/// The scan's state: the active intervals (by increasing end), the free
/// caller-saved and callee-saved registers (stacks: the last is handed out
/// first), which registers were handed out from the callee-saved pool, each
/// value's allocation, and the next spill slot.
pub type ScanState = (Seq<Active>, Seq<Reg>, Seq<Reg>, Seq<bool>, Seq<Allocation>, int);

pub open spec fn caller_free_init() -> Seq<Reg> {
    seq![Reg(17), Reg(16), Reg(15), Reg(14), Reg(13), Reg(12), Reg(11), Reg(10), Reg(31), Reg(30), Reg(29), Reg(28)]
}

pub open spec fn callee_free_init() -> Seq<Reg> {
    seq![Reg(27), Reg(26), Reg(25), Reg(24), Reg(23), Reg(22), Reg(21), Reg(20), Reg(19), Reg(18), Reg(9)]
}

pub open spec fn scan_init(n: nat) -> ScanState {
    (seq![], caller_free_init(), callee_free_init(), no_bits(32), Seq::new(n, |v: int| Allocation::SpillSlot(0)), 0)
}

/// A register goes back to the pool it came from.
pub open spec fn free_reg(fc: Seq<Reg>, fe: Seq<Reg>, a: Allocation) -> (Seq<Reg>, Seq<Reg>) {
    match a {
        Allocation::Reg(r) => if in_caller_pool(r) {
            (fc.push(r), fe)
        } else if in_callee_pool(r) {
            (fc, fe.push(r))
        } else {
            (fc, fe)
        },
        Allocation::SpillSlot(_) => (fc, fe),
    }
}

/// Intervals that end at or before `start` leave the active list, in order,
/// and give back their registers.
pub open spec fn expire(act: Seq<Active>, start: usize, fc: Seq<Reg>, fe: Seq<Reg>) -> (Seq<Active>, Seq<Reg>, Seq<Reg>)
    decreases act.len(),
{
    if act.len() == 0 {
        (seq![], fc, fe)
    } else {
        let prev = expire(act.drop_last(), start, fc, fe);
        let a = act.last();
        if a.2 <= start {
            let fr = free_reg(prev.1, prev.2, a.3);
            (prev.0, fr.0, fr.1)
        } else {
            (prev.0.push(a), prev.1, prev.2)
        }
    }
}

/// A call stands at a number within `[s, e]`.
pub open spec fn crosses_call(calls: Seq<bool>, s: usize, e: usize) -> bool {
    exists|i: int| s <= i <= e && 0 <= i < calls.len() && #[trigger] calls[i]
}

/// Where an interval ending at `end` goes in the active list: before the
/// first one that ends later.
pub open spec fn insert_pos(act: Seq<Active>, end: usize) -> int
    decreases act.len(),
{
    if act.len() == 0 {
        0
    } else if act[0].2 > end {
        0
    } else {
        1 + insert_pos(act.drop_first(), end)
    }
}

pub open spec fn spill_candidate_ok(a: Active, crosses: bool) -> bool {
    a.3 matches Allocation::Reg(r) && (crosses ==> in_callee_pool(r))
}

/// The last active interval whose register the new one may take, or -1.
pub open spec fn spill_candidate(act: Seq<Active>, crosses: bool) -> int
    decreases act.len(),
{
    if act.len() == 0 {
        -1
    } else if spill_candidate_ok(act.last(), crosses) {
        act.len() - 1
    } else {
        spill_candidate(act.drop_last(), crosses)
    }
}

pub open spec fn set_alloc(allocs: Seq<Allocation>, v: Value, a: Allocation) -> Seq<Allocation> {
    if v.0 < allocs.len() { allocs.update(v.0 as int, a) } else { allocs }
}

/// The value takes a register: it becomes active.
pub open spec fn assign(act: Seq<Active>, fc: Seq<Reg>, fe: Seq<Reg>, st: ScanState, e: Entry, r: Reg) -> ScanState {
    let used = if in_callee_pool(r) { st.3.update(r.0 as int, true) } else { st.3 };
    let act2 = act.insert(insert_pos(act, e.2), (e.0, e.1, e.2, Allocation::Reg(r)));
    (act2, fc, fe, used, set_alloc(st.4, e.0, Allocation::Reg(r)), st.5)
}

/// No register is free: the value takes the register of the last active
/// interval that may give it up and ends later (which is spilled), or is
/// spilled itself.
pub open spec fn spill(act: Seq<Active>, fc: Seq<Reg>, fe: Seq<Reg>, st: ScanState, e: Entry, crosses: bool) -> ScanState {
    let c = spill_candidate(act, crosses);
    if c >= 0 && act[c].2 > e.2 {
        let victim = act[c];
        let r = victim.3->Reg_0;
        let act1 = act.remove(c);
        let allocs = set_alloc(set_alloc(st.4, victim.0, Allocation::SpillSlot(st.5 as i32)), e.0, Allocation::Reg(r));
        (act1.insert(insert_pos(act1, e.2), (e.0, e.1, e.2, Allocation::Reg(r))), fc, fe, st.3, allocs, st.5 + 1)
    } else {
        (act, fc, fe, st.3, set_alloc(st.4, e.0, Allocation::SpillSlot(st.5 as i32)), st.5 + 1)
    }
}

/// One interval of the scan.
pub open spec fn scan_step(st: ScanState, e: Entry, calls: Seq<bool>) -> ScanState {
    let ex = expire(st.0, e.1, st.1, st.2);
    let (act, fc, fe) = ex;
    let crosses = crosses_call(calls, e.1, e.2);
    if crosses {
        if fe.len() > 0 {
            assign(act, fc, fe.drop_last(), st, e, fe.last())
        } else {
            spill(act, fc, fe, st, e, crosses)
        }
    } else if fc.len() > 0 {
        assign(act, fc.drop_last(), fe, st, e, fc.last())
    } else if fe.len() > 0 {
        assign(act, fc, fe.drop_last(), st, e, fe.last())
    } else {
        spill(act, fc, fe, st, e, crosses)
    }
}

pub open spec fn scan(es: Seq<Entry>, calls: Seq<bool>, st: ScanState) -> ScanState
    decreases es.len(),
{
    if es.len() == 0 {
        st
    } else {
        scan_step(scan(es.drop_last(), calls, st), es.last(), calls)
    }
}

/// The registers whose flag is set, in increasing number.
pub open spec fn flagged_regs(used: Seq<bool>, n: int) -> Seq<Reg>
    decreases n,
{
    if n <= 0 {
        seq![]
    } else {
        flagged_regs(used, n - 1) + if used[n - 1] { seq![Reg((n - 1) as u8)] } else { seq![] }
    }
}

proof fn lemma_expire_len(act: Seq<Active>, start: usize, fc: Seq<Reg>, fe: Seq<Reg>)
    ensures
        expire(act, start, fc, fe).0.len() <= act.len(),
        expire(act, start, fc, fe).1.len() + expire(act, start, fc, fe).2.len() + expire(act, start, fc, fe).0.len()
            <= fc.len() + fe.len() + act.len(),
    decreases act.len(),
{
    if act.len() > 0 {
        lemma_expire_len(act.drop_last(), start, fc, fe);
    }
}

/// The spill slots handed out so far number at most the intervals scanned.
pub proof fn lemma_scan_next(es: Seq<Entry>, calls: Seq<bool>, st: ScanState)
    ensures
        st.5 <= scan(es, calls, st).5 <= st.5 + es.len(),
    decreases es.len(),
{
    if es.len() > 0 {
        lemma_scan_next(es.drop_last(), calls, st);
    }
}


fn free_exec(fc: &mut Vec<Reg>, fe: &mut Vec<Reg>, a: Allocation)
    ensures
        (final(fc)@, final(fe)@) == free_reg(old(fc)@, old(fe)@, a),
{
    match a {
        Allocation::Reg(r) => {
            if (10 <= r.0 && r.0 <= 17) || (28 <= r.0 && r.0 <= 31) {
                fc.push(r);
            } else if r.0 == 9 || (18 <= r.0 && r.0 <= 27) {
                fe.push(r);
            }
        }
        Allocation::SpillSlot(_) => {}
    }
}

fn expire_exec(active: &mut Vec<Active>, fc: &mut Vec<Reg>, fe: &mut Vec<Reg>, start: usize)
    ensures
        (final(active)@, final(fc)@, final(fe)@) == expire(old(active)@, start, old(fc)@, old(fe)@),
{
    let ghost orig = active@;
    let ghost fc0 = fc@;
    let ghost fe0 = fe@;
    let ghost mut p: int = 0;
    let mut i: usize = 0;
    assert(orig.subrange(0, 0) =~= seq![]);
    assert(active@ =~= expire(orig.subrange(0, 0), start, fc0, fe0).0 + orig.subrange(0, orig.len() as int));
    while i < active.len()
        invariant
            0 <= p <= orig.len(),
            i == expire(orig.subrange(0, p), start, fc0, fe0).0.len(),
            active@ == expire(orig.subrange(0, p), start, fc0, fe0).0 + orig.subrange(p, orig.len() as int),
            (fc@, fe@) == (expire(orig.subrange(0, p), start, fc0, fe0).1, expire(orig.subrange(0, p), start, fc0, fe0).2),
        decreases orig.len() - p,
    {
        let ghost pre = orig.subrange(0, p);
        let ghost nxt = orig.subrange(0, p + 1);
        assert(nxt.drop_last() =~= pre);
        assert(active@[i as int] == orig[p]);
        if active[i].2 <= start {
            let a = active.remove(i);
            free_exec(fc, fe, a.3);
            proof {
                assert(active@ =~= expire(nxt, start, fc0, fe0).0 + orig.subrange(p + 1, orig.len() as int));
            }
        } else {
            i = i + 1;
            proof {
                assert(active@ =~= expire(nxt, start, fc0, fe0).0 + orig.subrange(p + 1, orig.len() as int));
            }
        }
        proof { p = p + 1; }
    }
    proof {
        if p < orig.len() {
            assert(active@.len() > i);
        }
        assert(orig.subrange(0, orig.len() as int) =~= orig);
        assert(active@ =~= expire(orig, start, fc0, fe0).0);
    }
}

fn crosses_exec(is_call: &Vec<bool>, s: usize, e: usize) -> (r: bool)
    ensures
        r == crosses_call(is_call@, s, e),
{
    let mut t: usize = s;
    while t <= e && t < is_call.len()
        invariant
            s <= t,
            forall|i: int| s <= i < t && 0 <= i < is_call@.len() ==> !(#[trigger] is_call@[i]),
        decreases is_call@.len() - t,
    {
        if is_call[t] {
            return true;
        }
        t = t + 1;
    }
    false
}

fn insert_pos_exec(active: &Vec<Active>, end: usize) -> (r: usize)
    ensures
        r == insert_pos(active@, end),
        r <= active@.len(),
{
    let mut k: usize = 0;
    assert(active@.subrange(0, active@.len() as int) =~= active@);
    while k < active.len() && active[k].2 <= end
        invariant
            k <= active@.len(),
            insert_pos(active@, end) == k + insert_pos(active@.subrange(k as int, active@.len() as int), end),
        decreases active@.len() - k,
    {
        assert(active@.subrange(k as int, active@.len() as int).drop_first() =~= active@.subrange(k as int + 1, active@.len() as int));
        k = k + 1;
    }
    proof {
        lemma_insert_pos_bound(active@.subrange(k as int, active@.len() as int), end);
    }
    k
}

pub proof fn lemma_insert_pos_bound(act: Seq<Active>, end: usize)
    ensures
        0 <= insert_pos(act, end) <= act.len(),
    decreases act.len(),
{
    if act.len() > 0 && act[0].2 <= end {
        lemma_insert_pos_bound(act.drop_first(), end);
    }
}

fn candidate_exec(active: &Vec<Active>, crosses: bool) -> (r: Option<usize>)
    ensures
        match r {
            Some(k) => k == spill_candidate(active@, crosses) && k < active@.len(),
            None => spill_candidate(active@, crosses) == -1,
        },
{
    let mut k: usize = active.len();
    assert(active@.subrange(0, active@.len() as int) =~= active@);
    while k > 0
        invariant
            k <= active@.len(),
            spill_candidate(active@, crosses) == spill_candidate(active@.subrange(0, k as int), crosses),
        decreases k,
    {
        let ghost pre = active@.subrange(0, k as int);
        assert(pre.drop_last() =~= active@.subrange(0, k as int - 1));
        let ok = match active[k - 1].3 {
            Allocation::Reg(r) => !crosses || r.0 == 9 || (18 <= r.0 && r.0 <= 27),
            Allocation::SpillSlot(_) => false,
        };
        if ok {
            return Some(k - 1);
        }
        k = k - 1;
    }
    None
}

pub proof fn lemma_spill_candidate(act: Seq<Active>, crosses: bool)
    ensures
        -1 <= spill_candidate(act, crosses) < act.len(),
        spill_candidate(act, crosses) >= 0 ==> spill_candidate_ok(act[spill_candidate(act, crosses)], crosses),
    decreases act.len(),
{
    if act.len() > 0 && !spill_candidate_ok(act.last(), crosses) {
        lemma_spill_candidate(act.drop_last(), crosses);
        let c = spill_candidate(act.drop_last(), crosses);
        if c >= 0 {
            assert(act.drop_last()[c] == act[c]);
        }
    }
}

/// Scans one interval.
fn scan_one(
    active: &mut Vec<Active>,
    fc: &mut Vec<Reg>,
    fe: &mut Vec<Reg>,
    used: &mut Vec<bool>,
    allocs: &mut Vec<Allocation>,
    next: &mut i32,
    e: Entry,
    is_call: &Vec<bool>,
)
    requires
        old(used)@.len() == 32,
        *old(next) < i32::MAX,
        *old(next) >= 0,
    ensures
        (final(active)@, final(fc)@, final(fe)@, final(used)@, final(allocs)@, *final(next) as int)
            == scan_step((old(active)@, old(fc)@, old(fe)@, old(used)@, old(allocs)@, *old(next) as int), e, is_call@),
        final(used)@.len() == 32,
{
    let ghost st = (active@, fc@, fe@, used@, allocs@, *next as int);
    let (val, start, end) = e;
    expire_exec(active, fc, fe, start);
    let ghost ex = (active@, fc@, fe@);
    assert(ex == expire(st.0, e.1, st.1, st.2));
    let crosses = crosses_exec(is_call, start, end);
    let chosen = if crosses {
        fe.pop()
    } else {
        match fc.pop() {
            Some(r) => Some(r),
            None => fe.pop(),
        }
    };
    match chosen {
        Some(reg) => {
            if reg.0 == 9 || (18 <= reg.0 && reg.0 <= 27) {
                used.set(reg.0 as usize, true);
            }
            if (val.0 as usize) < allocs.len() {
                allocs.set(val.0 as usize, Allocation::Reg(reg));
            }
            let pos = insert_pos_exec(active, end);
            active.insert(pos, (val, start, end, Allocation::Reg(reg)));
        }
        None => {
            let cand = candidate_exec(active, crosses);
            let mut stolen = false;
            match cand {
                Some(c) => {
                    if active[c].2 > end {
                        let victim = active.remove(c);
                        let slot = *next;
                        *next = slot + 1;
                        let ghost a0 = allocs@;
                        if (victim.0.0 as usize) < allocs.len() {
                            allocs.set(victim.0.0 as usize, Allocation::SpillSlot(slot));
                        }
                        match victim.3 {
                            Allocation::Reg(reg) => {
                                if (val.0 as usize) < allocs.len() {
                                    allocs.set(val.0 as usize, Allocation::Reg(reg));
                                }
                                let pos = insert_pos_exec(active, end);
                                active.insert(pos, (val, start, end, Allocation::Reg(reg)));
                            }
                            Allocation::SpillSlot(_) => {}
                        }
                        stolen = true;
                    }
                }
                None => {}
            }
            if !stolen {
                let slot = *next;
                *next = slot + 1;
                if (val.0 as usize) < allocs.len() {
                    allocs.set(val.0 as usize, Allocation::SpillSlot(slot));
                }
            }
        }
    }
    proof {
        let want = scan_step(st, e, is_call@);
        if chosen is None {
            let c = spill_candidate(ex.0, crosses);
            lemma_spill_candidate(ex.0, crosses);
            assert(want == spill(ex.0, ex.1, ex.2, st, e, crosses));
        }
        assert(active@ =~= want.0);
        assert(allocs@ =~= want.4);
        assert(used@ =~= want.3);
    }
}


// ---------------------------------------------------------------------------
// The allocation

/// The scan's final state for a function, given its liveness.
pub open spec fn scan_result(f: &Function, live: LiveState) -> ScanState {
    scan(scan_order(live_intervals(f, live)), number_blocks(f, block_order(f)).2, scan_init(f.values@.len()))
}

/// `r` is what the scan makes of the function's live intervals.
pub open spec fn allocation_of(f: &Function, live: LiveState, r: RegAllocResult) -> bool {
    let st = scan_result(f, live);
    &&& r.allocations@ == st.4
    &&& r.used_callee_saved@ == flagged_regs(st.3, 32)
    &&& r.num_spill_slots == st.5
}

fn flagged_exec(used: &Vec<bool>) -> (r: Vec<Reg>)
    requires
        used@.len() == 32,
    ensures
        r@ == flagged_regs(used@, 32),
{
    let mut r: Vec<Reg> = Vec::new();
    let mut i: usize = 0;
    while i < 32
        invariant
            used@.len() == 32,
            i <= 32,
            r@ == flagged_regs(used@, i as int),
        decreases 32 - i,
    {
        if used[i] {
            r.push(Reg(i as u8));
        }
        i = i + 1;
    }
    r
}

/// Allocates a register or a spill slot to every value of the function by
/// linear scan over its live intervals.
pub fn allocate_registers(func: &Function) -> (r: RegAllocResult)
    requires
        func.closed(),
        places(func, block_order(func)) < u64::MAX,
        func.values@.len() < i32::MAX,
    ensures
        exists|live: LiveState| live_fixpoint(func, live) && allocation_of(func, live, r),
{
    let order = block_order_of(func);
    proof {
        lemma_block_order(func);
    }
    let num = number_instructions(func, &order);
    let (defs, uses) = def_use_sets(func, &order);
    let (live_in, live_out) = liveness(func, &order, &defs, &uses);
    let ghost live = (rows(live_in@), rows(live_out@));
    let iv = compute_intervals(func, &order, &num, &live_in, &live_out);
    proof {
        lemma_number_blocks_shape(func, order@);
        let n0 = number_blocks(func, order@);
        lemma_iv_len(func, n0, iv_init(func, n0.0), order@);
        lemma_iv_live_len(iv_uses(func, n0, iv_init(func, n0.0), order@), live, n0.1, func.blocks@.len() as int);
    }
    let sorted = sort_intervals(&iv);
    let ghost es = sorted@;
    proof {
        lemma_start_order_total();
        entries(iv@).lemma_sort_by_ensures(start_order());
        vstd::seq_lib::to_multiset_len(entries(iv@));
        vstd::seq_lib::to_multiset_len(es);
        assert(iv@.len() == func.values@.len());
        assert(entries(iv@).len() == iv@.len());
        assert(es.len() == func.values@.len());
    }
    let nv = func.values.len();
    let mut active: Vec<Active> = Vec::new();
    let mut fc: Vec<Reg> = vec![Reg(17), Reg(16), Reg(15), Reg(14), Reg(13), Reg(12), Reg(11), Reg(10), Reg(31), Reg(30), Reg(29), Reg(28)];
    let mut fe: Vec<Reg> = vec![Reg(27), Reg(26), Reg(25), Reg(24), Reg(23), Reg(22), Reg(21), Reg(20), Reg(19), Reg(18), Reg(9)];
    let mut used: Vec<bool> = zero_bits(32);
    let mut allocs: Vec<Allocation> = Vec::new();
    let mut v: usize = 0;
    while v < nv
        invariant
            v <= nv,
            allocs@ == Seq::new(v as nat, |w: int| Allocation::SpillSlot(0)),
        decreases nv - v,
    {
        allocs.push(Allocation::SpillSlot(0));
        v = v + 1;
        assert(allocs@ =~= Seq::new(v as nat, |w: int| Allocation::SpillSlot(0)));
    }
    let mut next: i32 = 0;
    let ghost init = scan_init(nv as nat);
    assert(fc@ =~= caller_free_init());
    assert(fe@ =~= callee_free_init());
    assert((active@, fc@, fe@, used@, allocs@, next as int) == init);
    let mut i: usize = 0;
    while i < sorted.len()
        invariant
            es == sorted@,
            es.len() == nv,
            nv < i32::MAX,
            init == scan_init(nv as nat),
            i <= es.len(),
            used@.len() == 32,
            (active@, fc@, fe@, used@, allocs@, next as int) == scan(es.subrange(0, i as int), num.is_call@, init),
        decreases es.len() - i,
    {
        assert(es.subrange(0, i as int + 1).drop_last() =~= es.subrange(0, i as int));
        proof {
            lemma_scan_next(es.subrange(0, i as int), num.is_call@, init);
            assert(next as int <= i);
        }
        scan_one(&mut active, &mut fc, &mut fe, &mut used, &mut allocs, &mut next, sorted[i], &num.is_call);
        i = i + 1;
    }
    assert(es.subrange(0, es.len() as int) =~= es);
    let used_regs = flagged_exec(&used);
    let r = RegAllocResult { allocations: allocs, used_callee_saved: used_regs, num_spill_slots: next };
    assert(live_fixpoint(func, live));
    assert(allocation_of(func, live, r));
    r
}


// ---------------------------------------------------------------------------
// Facts of the result

/// A value that none of the scanned intervals is of.
pub open spec fn unscanned(es: Seq<Entry>, v: int) -> bool {
    forall|j: int| 0 <= j < es.len() ==> (#[trigger] es[j]).0.0 != v
}

proof fn lemma_step_slots(st: ScanState, e: Entry, calls: Seq<bool>)
    requires
        0 <= st.5 < i32::MAX,
    ensures
        scan_step(st, e, calls).5 == st.5 || scan_step(st, e, calls).5 == st.5 + 1,
        scan_step(st, e, calls).4.len() == st.4.len(),
        forall|v: int| 0 <= v < st.4.len() ==> ((#[trigger] scan_step(st, e, calls).4[v]) matches Allocation::SpillSlot(s)
            ==> ((scan_step(st, e, calls).4[v] == st.4[v] && v != e.0.0)
                || (s == st.5 && scan_step(st, e, calls).5 == st.5 + 1))),
{
    let ex = expire(st.0, e.1, st.1, st.2);
    let crosses = crosses_call(calls, e.1, e.2);
    let st2 = scan_step(st, e, calls);
    lemma_spill_candidate(ex.0, crosses);
    let c = spill_candidate(ex.0, crosses);
    let takes = (crosses && ex.2.len() > 0) || (!crosses && (ex.1.len() > 0 || ex.2.len() > 0));
    if takes {
        let r = if crosses { ex.2.last() } else if ex.1.len() > 0 { ex.1.last() } else { ex.2.last() };
        let allocs = set_alloc(st.4, e.0, Allocation::Reg(r));
        assert(st2.4 == allocs);
        assert(st2.5 == st.5);
        assert forall|v: int| 0 <= v < st.4.len() implies ((#[trigger] st2.4[v]) matches Allocation::SpillSlot(s)
            ==> ((st2.4[v] == st.4[v] && v != e.0.0) || (s == st.5 && st2.5 == st.5 + 1))) by {
            if v == e.0.0 {
                assert(allocs[v] == Allocation::Reg(r));
            } else {
                assert(allocs[v] == st.4[v]);
            }
        }
    } else if c >= 0 && ex.0[c].2 > e.2 {
        let victim = ex.0[c];
        let r = victim.3->Reg_0;
        let a1 = set_alloc(st.4, victim.0, Allocation::SpillSlot(st.5 as i32));
        let allocs = set_alloc(a1, e.0, Allocation::Reg(r));
        assert(st2.4 == allocs);
        assert(st2.5 == st.5 + 1);
        assert forall|v: int| 0 <= v < st.4.len() implies ((#[trigger] st2.4[v]) matches Allocation::SpillSlot(s)
            ==> ((st2.4[v] == st.4[v] && v != e.0.0) || (s == st.5 && st2.5 == st.5 + 1))) by {
            if v == e.0.0 {
                assert(allocs[v] == Allocation::Reg(r));
            } else if v == victim.0.0 {
                assert(allocs[v] == Allocation::SpillSlot(st.5 as i32));
            } else {
                assert(allocs[v] == st.4[v]);
            }
        }
    } else {
        assert forall|v: int| 0 <= v < st.4.len() implies ((#[trigger] st2.4[v]) matches Allocation::SpillSlot(s)
            ==> ((st2.4[v] == st.4[v] && v != e.0.0) || (s == st.5 && st2.5 == st.5 + 1))) by {
        }
    }
}

/// Every spill slot that the scan hands out is below its count; a value
/// that it has not reached still has its first placeholder.
pub proof fn lemma_scan_slots(es: Seq<Entry>, calls: Seq<bool>, n: nat)
    requires
        es.len() < i32::MAX,
    ensures
        scan(es, calls, scan_init(n)).5 >= 0,
        scan(es, calls, scan_init(n)).4.len() == n,
        forall|v: int| 0 <= v < n ==> ((#[trigger] scan(es, calls, scan_init(n)).4[v]) matches Allocation::SpillSlot(s)
            ==> (0 <= s < scan(es, calls, scan_init(n)).5 || (s == 0 && unscanned(es, v)))),
    decreases es.len(),
{
    if es.len() > 0 {
        let pre = es.drop_last();
        lemma_scan_slots(pre, calls, n);
        lemma_scan_next(pre, calls, scan_init(n));
        let st = scan(pre, calls, scan_init(n));
        let e = es.last();
        let st2 = scan(es, calls, scan_init(n));
        assert(st2 == scan_step(st, e, calls));
        lemma_step_slots(st, e, calls);
        assert forall|v: int| 0 <= v < n implies ((#[trigger] st2.4[v]) matches Allocation::SpillSlot(s)
            ==> (0 <= s < st2.5 || (s == 0 && unscanned(es, v)))) by {
            if st2.4[v] == st.4[v] && v != e.0.0 {
                assert forall|j: int| 0 <= j < es.len() && unscanned(pre, v) implies (#[trigger] es[j]).0.0 != v by {
                    if j < pre.len() {
                        assert(pre[j] == es[j]);
                    }
                }
            }
        }
    }
}

/// The callee-saved registers listed are at most 32.
pub proof fn lemma_flagged_len(used: Seq<bool>, n: int)
    requires
        0 <= n,
    ensures
        flagged_regs(used, n).len() <= n,
    decreases n,
{
    if n > 0 {
        lemma_flagged_len(used, n - 1);
    }
}

/// Every value is scanned: each is in the scan order.
pub proof fn lemma_all_scanned(iv: Seq<(usize, usize)>, v: int)
    requires
        0 <= v < iv.len(),
        iv.len() <= u32::MAX + 1,
    ensures
        !unscanned(scan_order(iv), v),
{
    lemma_start_order_total();
    let es = entries(iv);
    es.lemma_sort_by_ensures(start_order());
    let x = es[v];
    es.to_multiset_ensures();
    scan_order(iv).to_multiset_ensures();
    assert(es.contains(x));
    assert(es.to_multiset().contains(x));
    assert(scan_order(iv).to_multiset().contains(x));
    assert(scan_order(iv).contains(x));
    let j = choose|j: int| 0 <= j < scan_order(iv).len() && scan_order(iv)[j] == x;
    assert(scan_order(iv)[j].0.0 == v);
}


pub proof fn lemma_number_blocks_shape_pub(f: &Function)
    ensures
        number_blocks(f, block_order(f)).0.len() == f.insts@.len(),
        number_blocks(f, block_order(f)).1.len() == f.blocks@.len(),
{
    lemma_number_blocks_shape(f, block_order(f));
}

pub proof fn lemma_intervals_len(f: &Function, live: LiveState)
    ensures
        live_intervals(f, live).len() == f.values@.len(),
{
    let num = number_blocks(f, block_order(f));
    lemma_iv_len(f, num, iv_init(f, num.0), block_order(f));
    lemma_iv_live_len(iv_uses(f, num, iv_init(f, num.0), block_order(f)), live, num.1, f.blocks@.len() as int);
}

} // verus!
