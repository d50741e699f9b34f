//! The compilation pipeline: from a function (or the text of a module) to
//! machine code, with the conditions that each stage needs tested on the way.
use vstd::prelude::*;
use vstd::string::StringSliceAdditionalSpecFns;
use crate::arena::{Block, EntityId, Inst, Value};
use crate::emit::{emit_machine_code, emittable, is_emittable, machine_code};
use crate::function::{inst_result, Function, ValueDef};
use crate::inst::Immediate;
use crate::opt::{optimization_run, optimize_function, placed_once, same_function, unique_defs, FoldOp};
use crate::regalloc::{allocation_of, live_fixpoint, LiveState, RegAllocResult};
use crate::riscv::MInst;
use crate::select::{
    alloca_total, backup_slots_of, frame_need_bound, frame_of, lower_function, lowerable, lowered_code,
    needs_result, needs_result_exec, schedule_instructions,
};
use crate::inst::Instruction;
use crate::module::Module;
use crate::parser::{inst_blocks, inst_refs_in};
use crate::parser::{empty_mview, module_closed, mview, parse, sp_module, token_kinds, FloatLiterals, ParseError};
use crate::text::{nat_digits, owned, push_str, push_u64_digits, str_eq};

verus! {

// ---------------------------------------------------------------------------
// Where each instruction stands

/// Place `(b1, k1)` comes before place `(b, k)` in block-major order.
pub open spec fn place_before(b1: int, k1: int, b: int, k: int) -> bool {
    b1 < b || (b1 == b && k1 < k)
}

/// Some place before `(b, k)` holds instruction `i`.
pub open spec fn held_before(f: &Function, b: int, k: int, i: Inst) -> bool {
    exists|b1: int, k1: int| 0 <= b1 < f.blocks@.len() && 0 <= k1 < f.blocks@[b1].insts@.len()
        && place_before(b1, k1, b, k) && #[trigger] f.blocks@[b1].insts@[k1] == i
}

/// No two places before `(b, k)` hold the same instruction.
pub open spec fn distinct_before(f: &Function, b: int, k: int) -> bool {
    forall|b1: int, k1: int, b2: int, k2: int|
        0 <= b1 < f.blocks@.len() && 0 <= k1 < f.blocks@[b1].insts@.len()
        && 0 <= b2 < f.blocks@.len() && 0 <= k2 < f.blocks@[b2].insts@.len()
        && place_before(b1, k1, b, k) && place_before(b2, k2, b, k) && (b1 != b2 || k1 != k2)
        ==> #[trigger] f.blocks@[b1].insts@[k1] != #[trigger] f.blocks@[b2].insts@[k2]
}

/// Tells whether each instruction of the function stands in at most one
/// place of at most one block.
pub fn is_placed_once(func: &Function) -> (r: bool)
    requires
        func.wf(),
    ensures
        r == placed_once(func),
{
    let blocks = func.blocks.as_slice();
    let n = func.insts.len();
    let mut seen: Vec<bool> = Vec::new();
    let mut i: usize = 0;
    while i < n
        invariant
            i <= n,
            seen@.len() == i,
            forall|j: int| 0 <= j < i ==> !(#[trigger] seen@[j]),
        decreases n - i,
    {
        seen.push(false);
        i = i + 1;
    }
    let nb = blocks.len();
    let mut b: usize = 0;
    while b < nb
        invariant
            func.wf(),
            blocks@ == func.blocks@,
            nb == blocks@.len(),
            n == func.insts@.len(),
            seen@.len() == n,
            b <= nb,
            forall|j: int| 0 <= j < n ==> (#[trigger] seen@[j] <==> held_before(func, b as int, 0, Inst(j as u32))),
            distinct_before(func, b as int, 0),
        decreases nb - b,
    {
        let ids = &blocks[b].insts;
        let mut k: usize = 0;
        while k < ids.len()
            invariant
                func.wf(),
                blocks@ == func.blocks@,
                nb == blocks@.len(),
                n == func.insts@.len(),
                seen@.len() == n,
                b < nb,
                ids@ == func.blocks@[b as int].insts@,
                k <= ids@.len(),
                forall|j: int| 0 <= j < n ==> (#[trigger] seen@[j] <==> held_before(func, b as int, k as int, Inst(j as u32))),
                distinct_before(func, b as int, k as int),
            decreases ids@.len() - k,
        {
            let id = ids[k];
            let x = id.0 as usize;
            assert(x < n);
            if seen[x] {
                proof {
                    assert(held_before(func, b as int, k as int, Inst(x as u32)));
                    let (b1, k1) = choose|b1: int, k1: int| 0 <= b1 < func.blocks@.len() && 0 <= k1 < func.blocks@[b1].insts@.len()
                        && place_before(b1, k1, b as int, k as int) && #[trigger] func.blocks@[b1].insts@[k1] == Inst(x as u32);
                    if b1 == b {
                        assert(func.blocks@[b as int].insts@[k1] == func.blocks@[b as int].insts@[k as int]);
                        assert(!func.blocks@[b as int].insts@.no_duplicates());
                    } else {
                        assert(func.blocks@[b1].insts@.contains(id));
                        assert(func.blocks@[b as int].insts@.contains(id));
                    }
                }
                return false;
            }
            seen.set(x, true);
            proof {
                assert forall|j: int| 0 <= j < n implies (#[trigger] seen@[j] <==> held_before(func, b as int, k as int + 1, Inst(j as u32))) by {
                    if seen@[j] {
                        if j != x {
                            let (b1, k1) = choose|b1: int, k1: int| 0 <= b1 < func.blocks@.len() && 0 <= k1 < func.blocks@[b1].insts@.len()
                                && place_before(b1, k1, b as int, k as int) && #[trigger] func.blocks@[b1].insts@[k1] == Inst(j as u32);
                            assert(func.blocks@[b1].insts@[k1] == Inst(j as u32));
                        } else {
                            assert(func.blocks@[b as int].insts@[k as int] == Inst(j as u32));
                        }
                    }
                    if held_before(func, b as int, k as int + 1, Inst(j as u32)) {
                        let (b1, k1) = choose|b1: int, k1: int| 0 <= b1 < func.blocks@.len() && 0 <= k1 < func.blocks@[b1].insts@.len()
                            && place_before(b1, k1, b as int, k as int + 1) && #[trigger] func.blocks@[b1].insts@[k1] == Inst(j as u32);
                        if place_before(b1, k1, b as int, k as int) {
                            assert(held_before(func, b as int, k as int, Inst(j as u32)));
                        }
                    }
                }
                assert forall|b1: int, k1: int, b2: int, k2: int|
                    0 <= b1 < func.blocks@.len() && 0 <= k1 < func.blocks@[b1].insts@.len()
                    && 0 <= b2 < func.blocks@.len() && 0 <= k2 < func.blocks@[b2].insts@.len()
                    && place_before(b1, k1, b as int, k as int + 1) && place_before(b2, k2, b as int, k as int + 1) && (b1 != b2 || k1 != k2)
                    implies #[trigger] func.blocks@[b1].insts@[k1] != #[trigger] func.blocks@[b2].insts@[k2] by {
                    if !place_before(b1, k1, b as int, k as int) {
                        assert(place_before(b2, k2, b as int, k as int));
                        if func.blocks@[b2].insts@[k2] == id {
                            assert(held_before(func, b as int, k as int, Inst(x as u32)));
                        }
                    } else if !place_before(b2, k2, b as int, k as int) {
                        if func.blocks@[b1].insts@[k1] == id {
                            assert(held_before(func, b as int, k as int, Inst(x as u32)));
                        }
                    }
                }
            }
            k = k + 1;
        }
        proof {
            assert forall|j: int| 0 <= j < n implies (#[trigger] seen@[j] <==> held_before(func, b as int + 1, 0, Inst(j as u32))) by {
                if held_before(func, b as int + 1, 0, Inst(j as u32)) {
                    let (b1, k1) = choose|b1: int, k1: int| 0 <= b1 < func.blocks@.len() && 0 <= k1 < func.blocks@[b1].insts@.len()
                        && place_before(b1, k1, b as int + 1, 0) && #[trigger] func.blocks@[b1].insts@[k1] == Inst(j as u32);
                    assert(place_before(b1, k1, b as int, k as int));
                }
                if held_before(func, b as int, k as int, Inst(j as u32)) {
                    let (b1, k1) = choose|b1: int, k1: int| 0 <= b1 < func.blocks@.len() && 0 <= k1 < func.blocks@[b1].insts@.len()
                        && place_before(b1, k1, b as int, k as int) && #[trigger] func.blocks@[b1].insts@[k1] == Inst(j as u32);
                    assert(place_before(b1, k1, b as int + 1, 0));
                }
            }
            assert forall|b1: int, k1: int, b2: int, k2: int|
                0 <= b1 < func.blocks@.len() && 0 <= k1 < func.blocks@[b1].insts@.len()
                && 0 <= b2 < func.blocks@.len() && 0 <= k2 < func.blocks@[b2].insts@.len()
                && place_before(b1, k1, b as int + 1, 0) && place_before(b2, k2, b as int + 1, 0) && (b1 != b2 || k1 != k2)
                implies #[trigger] func.blocks@[b1].insts@[k1] != #[trigger] func.blocks@[b2].insts@[k2] by {
                assert(place_before(b1, k1, b as int, k as int));
                assert(place_before(b2, k2, b as int, k as int));
            }
        }
        b = b + 1;
    }
    proof {
        assert forall|bb: int| 0 <= bb < func.blocks@.len() implies (#[trigger] func.blocks@[bb]).insts@.no_duplicates() by {
            assert forall|k1: int, k2: int| 0 <= k1 < func.blocks@[bb].insts@.len() && 0 <= k2 < func.blocks@[bb].insts@.len() && k1 != k2
                implies func.blocks@[bb].insts@[k1] != func.blocks@[bb].insts@[k2] by {
                assert(place_before(bb, k1, nb as int, 0));
                assert(place_before(bb, k2, nb as int, 0));
            }
        }
        assert forall|b1: int, b2: int, i: Inst| 0 <= b1 < func.blocks@.len() && 0 <= b2 < func.blocks@.len() && b1 != b2
            && #[trigger] func.blocks@[b1].insts@.contains(i) implies !(#[trigger] func.blocks@[b2].insts@.contains(i)) by {
            if func.blocks@[b2].insts@.contains(i) {
                let k1 = choose|k1: int| 0 <= k1 < func.blocks@[b1].insts@.len() && func.blocks@[b1].insts@[k1] == i;
                let k2 = choose|k2: int| 0 <= k2 < func.blocks@[b2].insts@.len() && func.blocks@[b2].insts@[k2] == i;
                assert(place_before(b1, k1, nb as int, 0));
                assert(place_before(b2, k2, nb as int, 0));
                assert(func.blocks@[b1].insts@[k1] != func.blocks@[b2].insts@[k2]);
            }
        }
    }
    true
}

// ---------------------------------------------------------------------------
// Which value each instruction defines

/// Some value before `v` is defined by instruction `i`.
pub open spec fn defined_before(f: &Function, v: int, i: Inst) -> bool {
    exists|w: int| 0 <= w < v && #[trigger] f.values@[w].def == ValueDef::Inst(i)
}

/// Tells whether each instruction of the function defines at most one value.
pub fn has_unique_defs(func: &Function) -> (r: bool)
    requires
        func.wf(),
    ensures
        r == unique_defs(func),
{
    let vals = func.values.as_slice();
    let n = func.insts.len();
    let mut seen: Vec<bool> = Vec::new();
    let mut i: usize = 0;
    while i < n
        invariant
            i <= n,
            seen@.len() == i,
            forall|j: int| 0 <= j < i ==> !(#[trigger] seen@[j]),
        decreases n - i,
    {
        seen.push(false);
        i = i + 1;
    }
    let nv = vals.len();
    let mut v: usize = 0;
    while v < nv
        invariant
            func.wf(),
            vals@ == func.values@,
            nv == vals@.len(),
            n == func.insts@.len(),
            seen@.len() == n,
            v <= nv,
            forall|j: int| 0 <= j < n ==> (#[trigger] seen@[j] <==> defined_before(func, v as int, Inst(j as u32))),
            forall|v1: int, v2: int| 0 <= v1 < v && 0 <= v2 < v && v1 != v2
                && (#[trigger] func.values@[v1]).def is Inst ==> func.values@[v1].def != (#[trigger] func.values@[v2]).def,
        decreases nv - v,
    {
        match vals[v].def {
            ValueDef::Inst(id) => {
                let x = id.0 as usize;
                assert(x < n);
                if seen[x] {
                    proof {
                        assert(defined_before(func, v as int, Inst(x as u32)));
                        let w = choose|w: int| 0 <= w < v && #[trigger] func.values@[w].def == ValueDef::Inst(Inst(x as u32));
                        assert(func.values@[w].def == func.values@[v as int].def);
                    }
                    return false;
                }
                seen.set(x, true);
                proof {
                    assert forall|j: int| 0 <= j < n implies (#[trigger] seen@[j] <==> defined_before(func, v as int + 1, Inst(j as u32))) by {
                        if j == x {
                            assert(func.values@[v as int].def == ValueDef::Inst(Inst(j as u32)));
                        } else if defined_before(func, v as int + 1, Inst(j as u32)) {
                            let w = choose|w: int| 0 <= w < v + 1 && #[trigger] func.values@[w].def == ValueDef::Inst(Inst(j as u32));
                            assert(w < v);
                        }
                    }
                    assert forall|v1: int, v2: int| 0 <= v1 < v + 1 && 0 <= v2 < v + 1 && v1 != v2
                        && (#[trigger] func.values@[v1]).def is Inst implies func.values@[v1].def != (#[trigger] func.values@[v2]).def by {
                        if v1 == v {
                            assert(!defined_before(func, v as int, id));
                        } else if v2 == v {
                            if func.values@[v1].def == func.values@[v2].def {
                                assert(defined_before(func, v as int, id));
                            }
                        }
                    }
                }
            }
            ValueDef::Param(_) => {
                proof {
                    assert forall|j: int| 0 <= j < n implies (#[trigger] seen@[j] <==> defined_before(func, v as int + 1, Inst(j as u32))) by {
                        if defined_before(func, v as int + 1, Inst(j as u32)) {
                            let w = choose|w: int| 0 <= w < v + 1 && #[trigger] func.values@[w].def == ValueDef::Inst(Inst(j as u32));
                            assert(w < v);
                        }
                    }
                }
            }
        }
        v = v + 1;
    }
    true
}

// ---------------------------------------------------------------------------
// What lowering needs

/// Every placed instruction that computes a value has a result.
pub open spec fn results_present(f: &Function) -> bool {
    forall|b: int, k: int| 0 <= b < f.blocks@.len() && 0 <= k < f.blocks@[b].insts@.len()
        && needs_result(f.insts@[(#[trigger] f.blocks@[b].insts@[k]).0 as int])
        ==> inst_result(f.values@, f.blocks@[b].insts@[k]) is Some
}

/// Tells whether every placed instruction that computes a value has a result.
pub fn has_results(func: &Function) -> (r: bool)
    requires
        func.wf(),
    ensures
        r == results_present(func),
{
    let table = crate::printer::result_table(func);
    let blocks = func.blocks.as_slice();
    let insts = func.insts.as_slice();
    let mut b: usize = 0;
    while b < blocks.len()
        invariant
            func.wf(),
            blocks@ == func.blocks@,
            insts@ == func.insts@,
            table@.len() == func.insts@.len(),
            forall|i: int| 0 <= i < table@.len() ==> #[trigger] table@[i] == inst_result(func.values@, Inst(i as u32)),
            b <= blocks@.len(),
            forall|b1: int, k: int| 0 <= b1 < b && 0 <= k < func.blocks@[b1].insts@.len()
                && needs_result(func.insts@[(#[trigger] func.blocks@[b1].insts@[k]).0 as int])
                ==> inst_result(func.values@, func.blocks@[b1].insts@[k]) is Some,
        decreases blocks@.len() - b,
    {
        let ids = &blocks[b].insts;
        let mut k: usize = 0;
        while k < ids.len()
            invariant
                func.wf(),
                blocks@ == func.blocks@,
                insts@ == func.insts@,
                table@.len() == func.insts@.len(),
                forall|i: int| 0 <= i < table@.len() ==> #[trigger] table@[i] == inst_result(func.values@, Inst(i as u32)),
                b < blocks@.len(),
                ids@ == func.blocks@[b as int].insts@,
                k <= ids@.len(),
                forall|b1: int, k1: int| 0 <= b1 < b && 0 <= k1 < func.blocks@[b1].insts@.len()
                    && needs_result(func.insts@[(#[trigger] func.blocks@[b1].insts@[k1]).0 as int])
                    ==> inst_result(func.values@, func.blocks@[b1].insts@[k1]) is Some,
                forall|k1: int| 0 <= k1 < k
                    && needs_result(func.insts@[(#[trigger] func.blocks@[b as int].insts@[k1]).0 as int])
                    ==> inst_result(func.values@, func.blocks@[b as int].insts@[k1]) is Some,
            decreases ids@.len() - k,
        {
            let id = ids[k];
            let x = id.0 as usize;
            assert(x < insts@.len());
            if needs_result_exec(&insts[x]) && table[x].is_none() {
                assert(Inst(x as u32) == id);
                return false;
            }
            k = k + 1;
        }
        b = b + 1;
    }
    true
}

/// The limits within which lowering's arithmetic stays in range: room for
/// its made-up labels, value numbers that fit `i32`, and a frame whose size
/// fits `i32` whatever the allocation.
pub open spec fn within_limits(f: &Function) -> bool {
    &&& f.insts@.len() + 100_000 < u32::MAX
    &&& crate::regalloc::places(f, crate::regalloc::block_order(f)) + 100_000 < u32::MAX
    &&& f.values@.len() < i32::MAX
    &&& frame_need_bound(f) + 15 <= i32::MAX
}

/// Tells whether the function is within the limits of lowering.
/// Tells whether the places of the instructions, counted over the blocks in
/// the order of lowering, leave room for the labels that lowering makes up.
fn places_within(func: &Function) -> (r: bool)
    requires
        func.wf(),
    ensures
        r == (crate::regalloc::places(func, crate::regalloc::block_order(func)) + 100_000 < u32::MAX),
{
    let order = crate::regalloc::block_order_of(func);
    proof { crate::regalloc::lemma_block_order(func); }
    let mut acc: u64 = 0;
    let mut j: usize = 0;
    while j < order.len()
        invariant
            func.wf(),
            order@ == crate::regalloc::block_order(func),
            forall|k: int| 0 <= k < order@.len() ==> (#[trigger] order@[k]).0 < func.blocks@.len(),
            j <= order@.len(),
            acc == crate::regalloc::places(func, order@.subrange(0, j as int)),
            acc + 100_000 < u32::MAX,
        decreases order@.len() - j,
    {
        assert(order@.subrange(0, j as int + 1).drop_last() =~= order@.subrange(0, j as int));
        let n = func.blocks.at(order[j]).insts.len();
        if n as u64 >= 4_294_867_295 - acc {
            proof { crate::regalloc::lemma_places_prefix(func, order@, j as int + 1); }
            return false;
        }
        acc = acc + n as u64;
        j = j + 1;
    }
    assert(order@.subrange(0, order@.len() as int) =~= order@);
    true
}

pub fn is_within_limits(func: &Function) -> (r: bool)
    requires
        func.wf(),
    ensures
        r == within_limits(func),
{
    if !places_within(func) {
        return false;
    }
    let ni = func.insts.len();
    let nv = func.values.len();
    if ni >= 4_294_867_295 || nv >= 2_147_483_647 {
        return false;
    }
    let slots = backup_slots_of(func);
    if slots > 2_147_483_647 {
        return false;
    }
    let allocas = alloca_total(func);
    proof { crate::select::lemma_alloca_count_bound(func.insts@); }
    let need: u64 = 16 + 8 * 32 + 8 * (nv as u64) + 8 * (slots as u64) + 64 * (allocas as u64);
    need + 15 <= 2_147_483_647
}

/// What the pipeline needs of an optimised function before lowering it.
pub open spec fn lowering_ready(f: &Function) -> bool {
    lowerable(f) && within_limits(f)
}

// ---------------------------------------------------------------------------
// From a function to machine code

pub open spec fn limits_message() -> Seq<char> {
    "function exceeds the limits of code generation"@
}

pub open spec fn emission_message() -> Seq<char> {
    "lowered code cannot be encoded"@
}

pub open spec fn placement_message() -> Seq<char> {
    "an instruction stands in more than one place"@
}

pub open spec fn definition_message() -> Seq<char> {
    "an instruction defines more than one value"@
}

/// What emission gives for lowered code: its machine code when the emitter
/// accepts it, and otherwise an error.
pub open spec fn emitted(code: Seq<MInst>, r: Result<Vec<u8>, String>) -> bool {
    match r {
        Ok(bytes) => emittable(code) && bytes@ == machine_code(code),
        Err(e) => !emittable(code) && e@ == emission_message(),
    }
}

/// What compiling an optimised function gives: an error when it is not
/// ready for lowering, and otherwise the emission of the code that
/// lowering makes under the allocation that its live sets lead to.
pub open spec fn compiled(g: &Function, r: Result<Vec<u8>, String>) -> bool {
    if !lowering_ready(g) {
        r matches Err(e) && e@ == limits_message()
    } else {
        exists|live: LiveState, ra: RegAllocResult|
            live_fixpoint(g, live) && #[trigger] allocation_of(g, live, ra) && emitted(lowered_code(g, frame_of(g, &ra)), r)
    }
}

/// Allocates registers for an optimised function, lowers and schedules its
/// machine instructions and emits their machine code.
pub fn compile_optimized(g: &Function) -> (r: Result<Vec<u8>, String>)
    requires
        g.closed(),
    ensures
        compiled(g, r),
{
    if !(is_within_limits(g) && has_results(g)) {
        return Err(owned("function exceeds the limits of code generation"));
    }
    let lowered = lower_function(g);
    let scheduled = schedule_instructions(&lowered);
    let ghost (live, ra) = choose|live: LiveState, ra: RegAllocResult|
        live_fixpoint(g, live) && #[trigger] allocation_of(g, live, ra)
        && lowered.insts@ == lowered_code(g, frame_of(g, &ra));
    if !is_emittable(&scheduled.insts) {
        let r = Err(owned("lowered code cannot be encoded"));
        assert(emitted(lowered_code(g, frame_of(g, &ra)), r));
        return r;
    }
    let r = Ok(emit_machine_code(&scheduled));
    assert(emitted(lowered_code(g, frame_of(g, &ra)), r));
    r
}

/// What compiling a function gives: an error when an instruction stands in
/// two places or defines two values, and otherwise the compilation of the
/// function that a run of the optimiser makes of it.
pub open spec fn function_compiled<F: Fn(FoldOp, Immediate, Immediate) -> Immediate>(
    func: Function,
    fold_float: F,
    r: Result<Vec<u8>, String>,
) -> bool {
    if !placed_once(&func) {
        r matches Err(e) && e@ == placement_message()
    } else if !unique_defs(&func) {
        r matches Err(e) && e@ == definition_message()
    } else {
        exists|fs: Seq<Function>, f1s: Seq<Function>, f2s: Seq<Function>|
            #[trigger] optimization_run(fs, f1s, f2s, fold_float) && same_function(func, fs[0]) && compiled(&fs.last(), r)
    }
}

/// Compiles a function to machine code: optimises it, then allocates its
/// registers, lowers, schedules and emits it. Where two floating-point
/// constants fold, `fold_float` computes the result from their bit patterns.
pub fn compile_function_code<F: Fn(FoldOp, Immediate, Immediate) -> Immediate>(func: &Function, fold_float: &F) -> (r: Result<Vec<u8>, String>)
    requires
        func.closed(),
        forall|o: FoldOp, a: Immediate, b: Immediate| call_requires(*fold_float, (o, a, b)),
    ensures
        function_compiled(*func, *fold_float, r),
{
    if !is_placed_once(func) {
        return Err(owned("an instruction stands in more than one place"));
    }
    if !has_unique_defs(func) {
        return Err(owned("an instruction defines more than one value"));
    }
    let g = optimize_function(func, fold_float);
    let r = compile_optimized(&g);
    proof {
        let (fs, f1s, f2s) = choose|fs: Seq<Function>, f1s: Seq<Function>, f2s: Seq<Function>|
            #[trigger] optimization_run(fs, f1s, f2s, *fold_float) && same_function(*func, fs[0]) && g == fs.last();
        assert(optimization_run(fs, f1s, f2s, *fold_float) && same_function(*func, fs[0]) && compiled(&fs.last(), r));
    }
    r
}

// ---------------------------------------------------------------------------
// Finding a function by name

/// `fs[k]` is the first function named `name`.
pub open spec fn named_at(fs: Seq<Function>, name: Seq<char>, k: int) -> bool {
    &&& 0 <= k < fs.len()
    &&& fs[k].name@ == name
    &&& forall|j: int| 0 <= j < k ==> (#[trigger] fs[j]).name@ != name
}

/// The index of the first function named `name`, or -1 when there is none.
pub open spec fn first_named(fs: Seq<Function>, name: Seq<char>) -> int {
    if exists|k: int| named_at(fs, name, k) {
        choose|k: int| named_at(fs, name, k)
    } else {
        -1
    }
}

pub proof fn lemma_first_named(fs: Seq<Function>, name: Seq<char>, k: int)
    requires
        named_at(fs, name, k),
    ensures
        first_named(fs, name) == k,
{
    let c = choose|c: int| named_at(fs, name, c);
    if c < k {
        assert(fs[c].name@ != name);
    } else if c > k {
        assert(fs[k].name@ != name);
    }
}

fn find_first(fs: &[Function], name: &str) -> (r: Option<usize>)
    ensures
        r matches Some(k) ==> named_at(fs@, name@, k as int) && first_named(fs@, name@) == k,
        r is None ==> forall|j: int| 0 <= j < fs@.len() ==> (#[trigger] fs@[j]).name@ != name@,
        r is None ==> first_named(fs@, name@) == -1,
{
    let mut i: usize = 0;
    while i < fs.len()
        invariant
            i <= fs@.len(),
            forall|j: int| 0 <= j < i ==> (#[trigger] fs@[j]).name@ != name@,
        decreases fs@.len() - i,
    {
        if str_eq(fs[i].name.as_str(), name) {
            proof { lemma_first_named(fs@, name@, i as int); }
            return Some(i);
        }
        i = i + 1;
    }
    proof {
        if exists|k: int| named_at(fs@, name@, k) {
            let k = choose|k: int| named_at(fs@, name@, k);
            assert(fs@[k].name@ != name@);
        }
    }
    None
}

/// The index of the first function of the module with the given name.
pub fn first_function_index(m: &Module, name: &str) -> (r: Option<usize>)
    ensures
        r matches Some(k) ==> first_named(m.functions@, name@) == k,
        r is None ==> first_named(m.functions@, name@) == -1,
{
    find_first(m.functions.as_slice(), name)
}

pub open spec fn not_found_message(name: Seq<char>) -> Seq<char> {
    "Function '@"@ + name + "' not found in IR module"@
}

/// What compiling the function named `name` of a module gives: an error when
/// it has no such function, and otherwise the compilation of the first one.
pub open spec fn module_function_compiled<F: Fn(FoldOp, Immediate, Immediate) -> Immediate>(
    m: Module,
    name: Seq<char>,
    fold_float: F,
    r: Result<Vec<u8>, String>,
) -> bool {
    let k = first_named(m.functions@, name);
    if k < 0 {
        r matches Err(e) && e@ == not_found_message(name)
    } else {
        function_compiled(m.functions@[k], fold_float, r)
    }
}

/// Compiling a function of a module depends on that function alone: two
/// modules whose first function of the name is the same (or that both have
/// none) give the same results for it, whatever their other functions are.
pub proof fn lemma_compile_depends_on_function_only<F: Fn(FoldOp, Immediate, Immediate) -> Immediate>(
    m1: Module,
    m2: Module,
    name: Seq<char>,
    fold_float: F,
    r: Result<Vec<u8>, String>,
)
    requires
        first_named(m1.functions@, name) == first_named(m2.functions@, name),
        first_named(m1.functions@, name) >= 0 ==> m1.functions@[first_named(m1.functions@, name)]
            == m2.functions@[first_named(m2.functions@, name)],
    ensures
        module_function_compiled(m1, name, fold_float, r) == module_function_compiled(m2, name, fold_float, r),
{
}

/// Compiles the first function of the module with the given name.
pub fn compile_module_function<F: Fn(FoldOp, Immediate, Immediate) -> Immediate>(
    m: &Module,
    fn_name: &str,
    fold_float: &F,
) -> (r: Result<Vec<u8>, String>)
    requires
        module_closed(m),
        forall|o: FoldOp, a: Immediate, b: Immediate| call_requires(*fold_float, (o, a, b)),
    ensures
        module_function_compiled(*m, fn_name@, *fold_float, r),
{
    let fs = m.functions.as_slice();
    match find_first(fs, fn_name) {
        Some(k) => compile_function_code(&fs[k], fold_float),
        None => {
            let mut s = owned("Function '@");
            push_str(&mut s, fn_name);
            push_str(&mut s, "' not found in IR module");
            Err(s)
        }
    }
}

/// The text of the parse error that a lexing fault becomes.
pub open spec fn fault_text(f: crate::lexer::LexFault) -> Seq<char> {
    "Parse error at line "@ + nat_digits(f.line as nat) + ", col "@ + nat_digits(f.col as nat) + ": "@ + f.message
}

/// `r` is the error of a text that does not parse.
pub open spec fn parse_failed(r: Result<Vec<u8>, String>) -> bool {
    exists|e: ParseError| r matches Err(t) && t@ == "Parse error: "@ + (#[trigger] e.text())
}

/// What compiling a function of a module's text gives: a parse error when
/// the text does not lex or its tokens do not read as a module, and
/// otherwise what compiling the function gives in the module read from it.
pub open spec fn text_function_compiled<F: Fn(FoldOp, Immediate, Immediate) -> Immediate>(
    text: Seq<u8>,
    floats: Seq<(String, u64)>,
    name: Seq<char>,
    fold_float: F,
    r: Result<Vec<u8>, String>,
) -> bool {
    if text.len() >= usize::MAX {
        parse_failed(r)
    } else {
        match crate::lexer::lex(text) {
            Ok(ts) => {
                if ts.len() >= usize::MAX {
                    parse_failed(r)
                } else {
                    match sp_module(token_kinds(ts), 0, empty_mview(), floats) {
                        Some(mv) => exists|m: Module| module_closed(&m) && #[trigger] mview(&m) == mv
                            && module_function_compiled(m, name, fold_float, r),
                        None => parse_failed(r),
                    }
                }
            },
            Err(f) => r matches Err(t) && t@ == "Parse error: "@ + fault_text(f),
        }
    }
}

/// Compiles the function named `fn_name` of a module given as text. `floats`
/// gives the value of each float literal the text may hold.
pub fn compile_code<F: Fn(FoldOp, Immediate, Immediate) -> Immediate>(
    ir_text: &str,
    fn_name: &str,
    floats: &FloatLiterals,
    fold_float: &F,
) -> (r: Result<Vec<u8>, String>)
    requires
        forall|o: FoldOp, a: Immediate, b: Immediate| call_requires(*fold_float, (o, a, b)),
    ensures
        text_function_compiled(ir_text.spec_bytes(), floats.entries@, fn_name@, *fold_float, r),
{
    match parse(ir_text, floats) {
        Ok(m) => {
            let r = compile_module_function(&m, fn_name, fold_float);
            assert(module_function_compiled(m, fn_name@, *fold_float, r));
            r
        }
        Err(e) => {
            let mut s = owned("Parse error: ");
            let t = e.to_string();
            push_str(&mut s, t.as_str());
            assert(s@ == "Parse error: "@ + e.text());
            let r = Err(s);
            assert(parse_failed(r));
            r
        }
    }
}

// ---------------------------------------------------------------------------
// A whole module

/// The bytes of the pieces, one after the other.
pub open spec fn concat_code(ps: Seq<Vec<u8>>) -> Seq<u8>
    decreases ps.len(),
{
    if ps.len() == 0 {
        seq![]
    } else {
        concat_code(ps.drop_last()) + ps.last()@
    }
}

/// What linking gives for the `i`-th function of a module: the compilation
/// of the first function with its name.
#[verifier::opaque]
pub open spec fn linked_piece<F: Fn(FoldOp, Immediate, Immediate) -> Immediate>(
    fs: Seq<Function>,
    i: int,
    fold_float: F,
    r: Result<Vec<u8>, String>,
) -> bool {
    function_compiled(fs[first_named(fs, fs[i].name@)], fold_float, r)
}

fn compile_piece<F: Fn(FoldOp, Immediate, Immediate) -> Immediate>(m: &Module, i: usize, fold_float: &F) -> (r: Result<Vec<u8>, String>)
    requires
        module_closed(m),
        i < m.functions@.len(),
        forall|o: FoldOp, a: Immediate, b: Immediate| call_requires(*fold_float, (o, a, b)),
    ensures
        linked_piece(m.functions@, i as int, *fold_float, r),
{
    let fs = m.functions.as_slice();
    let k = match find_first(fs, fs[i].name.as_str()) {
        Some(k) => k,
        None => {
            assert(fs@[i as int].name@ != fs@[i as int].name@);
            return Err(owned("unreachable"));
        }
    };
    let r = compile_function_code(&fs[k], fold_float);
    assert(linked_piece(m.functions@, i as int, *fold_float, r)) by { reveal(linked_piece); }
    r
}

/// Compiles every function of the module, in order, and links their machine
/// code into one sequence of bytes. Each function is compiled as it is
/// found by its name.
pub fn compile_module_code<F: Fn(FoldOp, Immediate, Immediate) -> Immediate>(m: &Module, fold_float: &F) -> (r: Result<Vec<u8>, String>)
    requires
        module_closed(m),
        forall|o: FoldOp, a: Immediate, b: Immediate| call_requires(*fold_float, (o, a, b)),
    ensures
        r matches Ok(bytes) ==> exists|ps: Seq<Vec<u8>>| ps.len() == m.functions@.len()
            && (forall|i: int| 0 <= i < ps.len() ==> #[trigger] linked_piece(m.functions@, i, *fold_float, Ok(ps[i])))
            && bytes@ == concat_code(ps),
        r matches Err(e) ==> exists|i: int| 0 <= i < m.functions@.len() && #[trigger] linked_piece(m.functions@, i, *fold_float, Err(e)),
{
    let n = m.functions.len();
    let mut bytes: Vec<u8> = Vec::new();
    let ghost mut ps: Seq<Vec<u8>> = seq![];
    let mut i: usize = 0;
    while i < n
        invariant
            module_closed(m),
            n == m.functions@.len(),
            forall|o: FoldOp, a: Immediate, b: Immediate| call_requires(*fold_float, (o, a, b)),
            i <= n,
            ps.len() == i,
            forall|j: int| 0 <= j < i ==> #[trigger] linked_piece(m.functions@, j, *fold_float, Ok(ps[j])),
            bytes@ == concat_code(ps),
        decreases n - i,
    {
        match compile_piece(m, i, fold_float) {
            Ok(piece) => {
                let mut piece = piece;
                let ghost old_ps = ps;
                let ghost piece_bytes = piece@;
                proof {
                    ps = ps.push(piece);
                    assert(ps.drop_last() =~= old_ps);
                }
                bytes.append(&mut piece);
                assert(bytes@ == concat_code(old_ps) + piece_bytes);
            }
            Err(e) => {
                return Err(e);
            }
        }
        i = i + 1;
    }
    Ok(bytes)
}

// ---------------------------------------------------------------------------
// A module for measuring compile times

/// The text of the `i`-th function of the synthetic module: it adds `i` to
/// its parameter.
pub open spec fn synthetic_function_text(i: nat) -> Seq<char> {
    "func @fn_"@ + nat_digits(i) + "(%val: i64) -> i64 {\nentry:\n    %c: i64 = const.int "@ + nat_digits(i)
        + "\n    %res: i64 = add %val, %c\n    ret %res\n}\n\n"@
}

/// The text of a synthetic module of `n` functions, `fn_0` to `fn_{n-1}`.
pub open spec fn synthetic_module_text(n: nat) -> Seq<char>
    decreases n,
{
    if n == 0 {
        seq![]
    } else {
        synthetic_module_text((n - 1) as nat) + synthetic_function_text((n - 1) as nat)
    }
}

/// Generates a synthetic module with `n` functions, to stand for many
/// monomorphised or duplicated functions.
pub fn generate_synthetic_module(n: usize) -> (r: String)
    ensures
        r@ == synthetic_module_text(n as nat),
{
    let mut code = String::new();
    let mut i: usize = 0;
    while i < n
        invariant
            i <= n,
            code@ == synthetic_module_text(i as nat),
        decreases n - i,
    {
        push_str(&mut code, "func @fn_");
        push_u64_digits(&mut code, i as u64);
        push_str(&mut code, "(%val: i64) -> i64 {\nentry:\n    %c: i64 = const.int ");
        push_u64_digits(&mut code, i as u64);
        push_str(&mut code, "\n    %res: i64 = add %val, %c\n    ret %res\n}\n\n");
        assert(code@ =~= synthetic_module_text(i as nat) + synthetic_function_text(i as nat));
        i = i + 1;
    }
    code
}

/// One run of a query of an incremental compilation session: the query's
/// name and the function it ran for.
#[derive(Clone, Debug, PartialEq, Eq)]
pub struct QueryLogEntry {
    pub query: String,
    pub fn_name: String,
}

// ---------------------------------------------------------------------------
// Whether every reference of a function resolves

fn all_below(vs: &Vec<Value>, n: usize) -> (r: bool)
    ensures
        r == forall|k: int| 0 <= k < vs@.len() ==> (#[trigger] vs@[k]).0 < n,
{
    let mut k: usize = 0;
    while k < vs.len()
        invariant
            k <= vs@.len(),
            forall|j: int| 0 <= j < k ==> (#[trigger] vs@[j]).0 < n,
        decreases vs@.len() - k,
    {
        if vs[k].0 as usize >= n {
            return false;
        }
        k = k + 1;
    }
    true
}

fn refs_in(inst: &Instruction, nvalues: usize, nblocks: usize) -> (r: bool)
    ensures
        r == inst_refs_in(*inst, nvalues as int, nblocks as int),
{
    let ops = crate::opt::get_operands(inst);
    if !all_below(&ops, nvalues) {
        return false;
    }
    match inst {
        Instruction::Jmp(b) => {
            assert(inst_blocks(*inst)[0] == *b);
            (b.0 as usize) < nblocks
        }
        Instruction::Br(_, t, f) => {
            assert(inst_blocks(*inst)[0] == *t);
            assert(inst_blocks(*inst)[1] == *f);
            (t.0 as usize) < nblocks && (f.0 as usize) < nblocks
        }
        Instruction::Phi(pairs) => {
            let mut k: usize = 0;
            while k < pairs.len()
                invariant
                    k <= pairs@.len(),
                    inst_blocks(*inst) == pairs@.map_values(|p: (Block, Value)| p.0),
                    forall|j: int| 0 <= j < k ==> (#[trigger] inst_blocks(*inst)[j]).0 < nblocks,
                decreases pairs@.len() - k,
            {
                if pairs[k].0.0 as usize >= nblocks {
                    assert(inst_blocks(*inst)[k as int] == pairs@[k as int].0);
                    return false;
                }
                k = k + 1;
            }
            true
        }
        _ => true,
    }
}

/// Tells whether every reference of the function resolves: its keys refer
/// into its arenas, each instruction's operands and target blocks exist, and
/// each parameter value names an existing parameter.
pub fn is_closed(func: &Function) -> (r: bool)
    ensures
        r == func.closed(),
{
    let nb = func.blocks.len();
    let ni = func.insts.len();
    let nv = func.values.len();
    if nb > 4_294_967_295 || ni > 4_294_967_295 || nv > 4_294_967_295 {
        return false;
    }
    let blocks = func.blocks.as_slice();
    let mut b: usize = 0;
    while b < nb
        invariant
            blocks@ == func.blocks@,
            nb == blocks@.len(),
            ni == func.insts@.len(),
            b <= nb,
            forall|c: int, k: int| 0 <= c < b && 0 <= k < func.blocks@[c].insts@.len()
                ==> (#[trigger] func.blocks@[c].insts@[k]).0 < ni,
        decreases nb - b,
    {
        let ids = &blocks[b].insts;
        let mut k: usize = 0;
        while k < ids.len()
            invariant
                blocks@ == func.blocks@,
                nb == blocks@.len(),
                ni == func.insts@.len(),
                b < nb,
                ids@ == func.blocks@[b as int].insts@,
                k <= ids@.len(),
                forall|c: int, k1: int| 0 <= c < b && 0 <= k1 < func.blocks@[c].insts@.len()
                    ==> (#[trigger] func.blocks@[c].insts@[k1]).0 < ni,
                forall|k1: int| 0 <= k1 < k ==> (#[trigger] func.blocks@[b as int].insts@[k1]).0 < ni,
            decreases ids@.len() - k,
        {
            if ids[k].0 as usize >= ni {
                return false;
            }
            k = k + 1;
        }
        b = b + 1;
    }
    let vals = func.values.as_slice();
    let np = func.params.len();
    let mut v: usize = 0;
    while v < nv
        invariant
            vals@ == func.values@,
            nv == vals@.len(),
            ni == func.insts@.len(),
            np == func.params@.len(),
            v <= nv,
            forall|w: int| 0 <= w < v ==> ((#[trigger] func.values@[w]).def matches ValueDef::Inst(i) ==> i.0 < ni),
            forall|w: int| 0 <= w < v ==> ((#[trigger] func.values@[w]).def matches ValueDef::Param(k) ==> k < np),
        decreases nv - v,
    {
        match vals[v].def {
            ValueDef::Inst(i) => {
                if i.0 as usize >= ni {
                    return false;
                }
            }
            ValueDef::Param(k) => {
                if k >= np {
                    return false;
                }
            }
        }
        v = v + 1;
    }
    let mut p: usize = 0;
    while p < np
        invariant
            np == func.params@.len(),
            nv == func.values@.len(),
            p <= np,
            forall|q: int| 0 <= q < p ==> (#[trigger] func.params@[q]).1.0 < nv,
        decreases np - p,
    {
        if func.params[p].1.0 as usize >= nv {
            return false;
        }
        p = p + 1;
    }
    match func.entry_block {
        Some(e) => {
            if e.0 as usize >= nb {
                return false;
            }
        }
        None => {}
    }
    let insts = func.insts.as_slice();
    let mut i: usize = 0;
    while i < ni
        invariant
            insts@ == func.insts@,
            ni == insts@.len(),
            nv == func.values@.len(),
            nb == func.blocks@.len(),
            i <= ni,
            forall|j: int| 0 <= j < i ==> inst_refs_in(#[trigger] func.insts@[j], nv as int, nb as int),
        decreases ni - i,
    {
        if !refs_in(&insts[i], nv, nb) {
            return false;
        }
        i = i + 1;
    }
    true
}

} // verus!
