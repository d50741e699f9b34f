//! Laws of the register allocator, proved over the linear scan that
//! `allocate_registers` performs.
use vstd::prelude::*;
use crate::function::Function;
use crate::regalloc::{
    allocation_of, block_order, callee_free_init, caller_free_init, flagged_regs, crosses_call, entries, expire, free_reg, in_callee_pool,
    lemma_intervals_len, lemma_spill_candidate, lemma_start_order_total, live_fixpoint, live_intervals,
    number_blocks, scan, scan_init, scan_order, scan_step, set_alloc, spill_candidate, spill_candidate_ok,
    start_order, assign, spill, insert_pos, lemma_insert_pos_bound, entry_leq, in_caller_pool, live_block, live_iter, live_round, live_steps, Active, Allocation, Entry, LiveState,
    RegAllocResult, ScanState,
};
use crate::arena::Block;
use crate::riscv::Reg;

verus! {

// ---------------------------------------------------------------------------
// Values live across a call

/// Each entry is the interval of its value.
pub open spec fn entries_match(es: Seq<Entry>, iv: Seq<(usize, usize)>) -> bool {
    forall|j: int| 0 <= j < es.len() ==> (#[trigger] es[j]).0.0 < iv.len()
        && es[j].1 == iv[es[j].0.0 as int].0 && es[j].2 == iv[es[j].0.0 as int].1
}

/// The free callee-saved registers are callee-saved, and every value whose
/// interval holds a call and that has a register has a callee-saved one.
pub open spec fn callee_safe(st: ScanState, iv: Seq<(usize, usize)>, calls: Seq<bool>) -> bool {
    &&& forall|k: int| 0 <= k < st.2.len() ==> in_callee_pool(#[trigger] st.2[k])
    &&& forall|v: int| 0 <= v < st.4.len() && v < iv.len() && crosses_call(calls, iv[v].0, iv[v].1)
            ==> (#[trigger] st.4[v] matches Allocation::Reg(r) ==> in_callee_pool(r))
}

proof fn lemma_expire_callee(act: Seq<Active>, start: usize, fc: Seq<Reg>, fe: Seq<Reg>)
    requires
        forall|k: int| 0 <= k < fe.len() ==> in_callee_pool(#[trigger] fe[k]),
    ensures
        forall|k: int| 0 <= k < expire(act, start, fc, fe).2.len() ==> in_callee_pool(#[trigger] expire(act, start, fc, fe).2[k]),
    decreases act.len(),
{
    if act.len() > 0 {
        lemma_expire_callee(act.drop_last(), start, fc, fe);
        let prev = expire(act.drop_last(), start, fc, fe);
        let a = act.last();
        if a.2 <= start {
            let fr = free_reg(prev.1, prev.2, a.3);
            assert forall|k: int| 0 <= k < fr.1.len() implies in_callee_pool(#[trigger] fr.1[k]) by {
                if k < prev.2.len() {
                    assert(fr.1[k] == prev.2[k]);
                }
            }
        }
    }
}

proof fn lemma_step_callee(st: ScanState, e: Entry, calls: Seq<bool>, iv: Seq<(usize, usize)>)
    requires
        callee_safe(st, iv, calls),
        st.4.len() == iv.len(),
        e.0.0 < iv.len(),
        e.1 == iv[e.0.0 as int].0,
        e.2 == iv[e.0.0 as int].1,
    ensures
        callee_safe(scan_step(st, e, calls), iv, calls),
        scan_step(st, e, calls).4.len() == iv.len(),
{
    let ex = expire(st.0, e.1, st.1, st.2);
    lemma_expire_callee(st.0, e.1, st.1, st.2);
    let crosses = crosses_call(calls, e.1, e.2);
    let st2 = scan_step(st, e, calls);
    lemma_spill_candidate(ex.0, crosses);
    let c = spill_candidate(ex.0, crosses);
    let w = e.0.0 as int;
    let takes = (crosses && ex.2.len() > 0) || (!crosses && (ex.1.len() > 0 || ex.2.len() > 0));
    if takes {
        let from_callee = crosses || ex.1.len() == 0;
        let r = if crosses { ex.2.last() } else if ex.1.len() > 0 { ex.1.last() } else { ex.2.last() };
        assert(from_callee ==> in_callee_pool(r));
        let allocs = set_alloc(st.4, e.0, Allocation::Reg(r));
        assert(st2.4 == allocs);
        assert forall|k: int| 0 <= k < st2.2.len() implies in_callee_pool(#[trigger] st2.2[k]) by {
            if from_callee {
                assert(st2.2 == ex.2.drop_last());
                assert(st2.2[k] == ex.2[k]);
            } else {
                assert(st2.2 == ex.2);
            }
        }
        assert forall|v: int| 0 <= v < st2.4.len() && v < iv.len() && crosses_call(calls, iv[v].0, iv[v].1)
            implies (#[trigger] st2.4[v] matches Allocation::Reg(q) ==> in_callee_pool(q)) by {
            if v != w {
                assert(allocs[v] == st.4[v]);
            }
        }
    } else if c >= 0 && ex.0[c].2 > e.2 {
        let victim = ex.0[c];
        let r = victim.3->Reg_0;
        assert(crosses ==> in_callee_pool(r));
        let a1 = set_alloc(st.4, victim.0, Allocation::SpillSlot(st.5 as i32));
        let allocs = set_alloc(a1, e.0, Allocation::Reg(r));
        assert(st2.4 == allocs);
        assert(st2.2 == ex.2);
        assert forall|v: int| 0 <= v < st2.4.len() && v < iv.len() && crosses_call(calls, iv[v].0, iv[v].1)
            implies (#[trigger] st2.4[v] matches Allocation::Reg(q) ==> in_callee_pool(q)) by {
            if v != w {
                assert(allocs[v] == a1[v]);
                if v != victim.0.0 {
                    assert(a1[v] == st.4[v]);
                }
            }
        }
    } else {
        let allocs = set_alloc(st.4, e.0, Allocation::SpillSlot(st.5 as i32));
        assert(st2.4 == allocs);
        assert(st2.2 == ex.2);
        assert forall|v: int| 0 <= v < st2.4.len() && v < iv.len() && crosses_call(calls, iv[v].0, iv[v].1)
            implies (#[trigger] st2.4[v] matches Allocation::Reg(q) ==> in_callee_pool(q)) by {
            if v != w {
                assert(allocs[v] == st.4[v]);
            }
        }
    }
}

proof fn lemma_scan_callee(es: Seq<Entry>, calls: Seq<bool>, iv: Seq<(usize, usize)>)
    requires
        entries_match(es, iv),
    ensures
        callee_safe(scan(es, calls, scan_init(iv.len())), iv, calls),
        scan(es, calls, scan_init(iv.len())).4.len() == iv.len(),
    decreases es.len(),
{
    if es.len() == 0 {
        let st = scan_init(iv.len());
        assert forall|k: int| 0 <= k < st.2.len() implies in_callee_pool(#[trigger] st.2[k]) by {
            assert(st.2 == callee_free_init());
        }
    } else {
        let pre = es.drop_last();
        assert(entries_match(pre, iv)) by {
            assert forall|j: int| 0 <= j < pre.len() implies (#[trigger] pre[j]).0.0 < iv.len()
                && pre[j].1 == iv[pre[j].0.0 as int].0 && pre[j].2 == iv[pre[j].0.0 as int].1 by {
                assert(pre[j] == es[j]);
            }
        }
        lemma_scan_callee(pre, calls, iv);
        let e = es.last();
        assert(e == es[es.len() - 1]);
        lemma_step_callee(scan(pre, calls, scan_init(iv.len())), e, calls, iv);
    }
}

proof fn lemma_scan_order_match(iv: Seq<(usize, usize)>)
    requires
        iv.len() <= u32::MAX + 1,
    ensures
        entries_match(scan_order(iv), iv),
{
    lemma_start_order_total();
    let es = entries(iv);
    es.lemma_sort_by_ensures(start_order());
    let so = scan_order(iv);
    assert forall|j: int| 0 <= j < so.len() implies (#[trigger] so[j]).0.0 < iv.len()
        && so[j].1 == iv[so[j].0.0 as int].0 && so[j].2 == iv[so[j].0.0 as int].1 by {
        let x = so[j];
        so.to_multiset_ensures();
        es.to_multiset_ensures();
        assert(so.contains(x));
        assert(so.to_multiset().contains(x));
        assert(es.to_multiset().contains(x));
        assert(es.contains(x));
        let k = choose|k: int| 0 <= k < es.len() && es[k] == x;
        assert(x.0.0 == k);
    }
}

/// A value whose live interval holds a call, and that the allocator keeps
/// in a register, is kept in a callee-saved register: calls do not
/// clobber it.
pub proof fn lemma_call_crossing_in_callee_saved(f: &Function, live: LiveState, ra: RegAllocResult, v: int)
    requires
        f.wf(),
        live_fixpoint(f, live),
        allocation_of(f, live, ra),
        0 <= v < f.values@.len(),
        crosses_call(number_blocks(f, block_order(f)).2, live_intervals(f, live)[v].0, live_intervals(f, live)[v].1),
    ensures
        ra.allocations@[v] matches Allocation::Reg(r) ==> in_callee_pool(r),
{
    let iv = live_intervals(f, live);
    let calls = number_blocks(f, block_order(f)).2;
    lemma_intervals_len(f, live);
    lemma_scan_order_match(iv);
    lemma_scan_callee(scan_order(iv), calls, iv);
}

// ---------------------------------------------------------------------------
// The allocation is a function of the function

proof fn lemma_steps_unchanged(f: &Function, st: LiveState, bs: Seq<Block>)
    requires
        forall|j: int| 0 <= j < bs.len() ==> (#[trigger] bs[j]).0 < st.0.len() && bs[j].0 < st.1.len(),
    ensures
        !live_steps(f, (st, false), bs).1 ==> live_steps(f, (st, false), bs).0 == st,
        live_steps(f, (st, false), bs).0.0.len() == st.0.len(),
        live_steps(f, (st, false), bs).0.1.len() == st.1.len(),
    decreases bs.len(),
{
    if bs.len() > 0 {
        let pre = bs.drop_last();
        assert forall|j: int| 0 <= j < pre.len() implies (#[trigger] pre[j]).0 < st.0.len() && pre[j].0 < st.1.len() by {
            assert(pre[j] == bs[j]);
        }
        lemma_steps_unchanged(f, st, pre);
        let prev = live_steps(f, (st, false), pre);
        let b = bs.last();
        assert(b == bs[bs.len() - 1]);
        let next = live_block(f, prev, b);
        if !next.1 {
            assert(!prev.1);
            assert(next.0.0 =~= prev.0.0);
            assert(next.0.1 =~= prev.0.1);
        }
    }
}

proof fn lemma_iter_len(f: &Function, k: nat)
    requires
        f.wf(),
    ensures
        live_iter(f, k).0.len() == f.blocks@.len(),
        live_iter(f, k).1.len() == f.blocks@.len(),
    decreases k,
{
    if k > 0 {
        lemma_iter_len(f, (k - 1) as nat);
        lemma_round_blocks(f, live_iter(f, (k - 1) as nat));
    }
}

proof fn lemma_round_blocks(f: &Function, st: LiveState)
    requires
        f.wf(),
        st.0.len() == f.blocks@.len(),
        st.1.len() == f.blocks@.len(),
    ensures
        live_round(f, st).0.0.len() == f.blocks@.len(),
        live_round(f, st).0.1.len() == f.blocks@.len(),
        !live_round(f, st).1 ==> live_round(f, st).0 == st,
{
    crate::regalloc::lemma_block_order(f);
    let bs = block_order(f).reverse();
    assert forall|j: int| 0 <= j < bs.len() implies (#[trigger] bs[j]).0 < st.0.len() && bs[j].0 < st.1.len() by {
        assert(bs[j] == block_order(f)[block_order(f).len() - 1 - j]);
    }
    lemma_steps_unchanged(f, st, bs);
}

proof fn lemma_iter_stays(f: &Function, k: nat, j: nat)
    requires
        f.wf(),
        !live_round(f, live_iter(f, k)).1,
    ensures
        live_iter(f, k + j) == live_iter(f, k),
    decreases j,
{
    if j > 0 {
        lemma_iter_stays(f, k, (j - 1) as nat);
        lemma_iter_len(f, k);
        lemma_round_blocks(f, live_iter(f, k));
        assert(live_iter(f, k + j) == live_round(f, live_iter(f, (k + j - 1) as nat)).0);
    }
}

/// Liveness has one answer: the iteration reaches a single fixpoint.
pub proof fn lemma_live_fixpoint_unique(f: &Function, a: LiveState, b: LiveState)
    requires
        f.wf(),
        live_fixpoint(f, a),
        live_fixpoint(f, b),
    ensures
        a == b,
{
    let ka = choose|k: nat| a == live_iter(f, k);
    let kb = choose|k: nat| b == live_iter(f, k);
    if ka <= kb {
        lemma_iter_stays(f, ka, (kb - ka) as nat);
    } else {
        lemma_iter_stays(f, kb, (ka - kb) as nat);
    }
}

/// Register allocation is deterministic: any two allocations that the
/// allocator can return for a function are the same.
pub proof fn lemma_allocation_unique(f: &Function, l1: LiveState, l2: LiveState, r1: RegAllocResult, r2: RegAllocResult)
    requires
        f.wf(),
        live_fixpoint(f, l1),
        live_fixpoint(f, l2),
        allocation_of(f, l1, r1),
        allocation_of(f, l2, r2),
    ensures
        r1.allocations@ == r2.allocations@,
        r1.used_callee_saved@ == r2.used_callee_saved@,
        r1.num_spill_slots == r2.num_spill_slots,
{
    lemma_live_fixpoint_unique(f, l1, l2);
}

// ---------------------------------------------------------------------------
// Values that share a register

/// Each active interval is the interval of a value already scanned, and that
/// value's allocation is the active interval's register.
pub open spec fn act_ok(act: Seq<Active>, allocs: Seq<Allocation>, iv: Seq<(usize, usize)>, done: Set<int>) -> bool {
    forall|j: int| 0 <= j < act.len() ==> {
        let v = (#[trigger] act[j]).0.0 as int;
        &&& 0 <= v < iv.len()
        &&& done.contains(v)
        &&& act[j].3 is Reg
        &&& allocs[v] == act[j].3
        &&& act[j].2 == iv[v].1
    }
}

/// No two active intervals hold the same register.
pub open spec fn act_distinct(act: Seq<Active>) -> bool {
    forall|j1: int, j2: int| 0 <= j1 < act.len() && 0 <= j2 < act.len() && j1 != j2
        ==> (#[trigger] act[j1]).3 != (#[trigger] act[j2]).3
}

/// The free registers: each listed once, in one list, and held by no
/// active interval.
pub open spec fn free_ok(act: Seq<Active>, fc: Seq<Reg>, fe: Seq<Reg>) -> bool {
    &&& fc.no_duplicates()
    &&& fe.no_duplicates()
    &&& forall|k1: int, k2: int| 0 <= k1 < fc.len() && 0 <= k2 < fe.len() ==> #[trigger] fc[k1] != #[trigger] fe[k2]
    &&& forall|j: int, k: int| 0 <= j < act.len() && 0 <= k < fc.len() ==> (#[trigger] act[j]).3 != Allocation::Reg(#[trigger] fc[k])
    &&& forall|j: int, k: int| 0 <= j < act.len() && 0 <= k < fe.len() ==> (#[trigger] act[j]).3 != Allocation::Reg(#[trigger] fe[k])
}

pub open spec fn in_act(act: Seq<Active>, v: int) -> bool {
    exists|j: int| 0 <= j < act.len() && (#[trigger] act[j]).0.0 == v
}

/// A value that holds a register but no active interval ended by `t`.
pub open spec fn holders_ok(act: Seq<Active>, allocs: Seq<Allocation>, iv: Seq<(usize, usize)>, t: int) -> bool {
    forall|v: int| 0 <= v < iv.len() && (#[trigger] allocs[v]) is Reg && !in_act(act, v) ==> iv[v].1 <= t
}

/// Two values that hold the same register have intervals that do not
/// overlap: one ends at or before the other starts.
pub open spec fn no_overlap(allocs: Seq<Allocation>, iv: Seq<(usize, usize)>) -> bool {
    forall|v1: int, v2: int| 0 <= v1 < iv.len() && 0 <= v2 < iv.len() && v1 != v2
        && (#[trigger] allocs[v1]) is Reg && allocs[v1] == #[trigger] allocs[v2]
        ==> iv[v1].1 <= iv[v2].0 || iv[v2].1 <= iv[v1].0
}

pub open spec fn expired_reg(act: Seq<Active>, s: usize, x: Reg) -> bool {
    exists|k: int| 0 <= k < act.len() && (#[trigger] act[k]).2 <= s && act[k].3 == Allocation::Reg(x)
}

proof fn lemma_expire_safe(act: Seq<Active>, s: usize, fc: Seq<Reg>, fe: Seq<Reg>)
    requires
        forall|j: int| 0 <= j < act.len() ==> (#[trigger] act[j]).3 is Reg,
        act_distinct(act),
        free_ok(act, fc, fe),
    ensures
        ({
            let ex = expire(act, s, fc, fe);
            &&& forall|j: int| 0 <= j < ex.0.len() ==> (exists|k: int| 0 <= k < act.len() && act[k] == #[trigger] ex.0[j]) && ex.0[j].2 > s
            &&& forall|k: int| 0 <= k < act.len() && (#[trigger] act[k]).2 > s ==> exists|j: int| 0 <= j < ex.0.len() && ex.0[j] == act[k]
            &&& act_distinct(ex.0)
            &&& free_ok(ex.0, ex.1, ex.2)
            &&& forall|k: int| 0 <= k < ex.1.len() ==> fc.contains(#[trigger] ex.1[k]) || expired_reg(act, s, ex.1[k])
            &&& forall|k: int| 0 <= k < ex.2.len() ==> fe.contains(#[trigger] ex.2[k]) || expired_reg(act, s, ex.2[k])
        }),
    decreases act.len(),
{
    if act.len() == 0 {
        return;
    }
    let pre = act.drop_last();
    assert forall|j: int| 0 <= j < pre.len() implies (#[trigger] pre[j]).3 is Reg by {
        assert(pre[j] == act[j]);
    }
    assert(act_distinct(pre)) by {
        assert forall|j1: int, j2: int| 0 <= j1 < pre.len() && 0 <= j2 < pre.len() && j1 != j2
            implies (#[trigger] pre[j1]).3 != (#[trigger] pre[j2]).3 by {
            assert(pre[j1] == act[j1] && pre[j2] == act[j2]);
        }
    }
    assert(free_ok(pre, fc, fe)) by {
        assert forall|j: int, k: int| 0 <= j < pre.len() && 0 <= k < fc.len() implies (#[trigger] pre[j]).3 != Allocation::Reg(#[trigger] fc[k]) by {
            assert(pre[j] == act[j]);
        }
        assert forall|j: int, k: int| 0 <= j < pre.len() && 0 <= k < fe.len() implies (#[trigger] pre[j]).3 != Allocation::Reg(#[trigger] fe[k]) by {
            assert(pre[j] == act[j]);
        }
    }
    lemma_expire_safe(pre, s, fc, fe);
    let prev = expire(pre, s, fc, fe);
    let a = act.last();
    let last = act.len() - 1;
    assert(a == act[last]);
    let r = a.3->Reg_0;
    // Where each listed entry of `prev` comes from, in `act`.
    assert forall|j: int| 0 <= j < prev.0.len() implies exists|k: int| 0 <= k < last && act[k] == #[trigger] prev.0[j] by {
        let k = choose|k: int| 0 <= k < pre.len() && pre[k] == prev.0[j];
        assert(pre[k] == act[k]);
    }
    // The last interval's register is held by no entry of `prev` and listed in neither free list.
    assert forall|j: int| 0 <= j < prev.0.len() implies (#[trigger] prev.0[j]).3 != a.3 by {
        let k = choose|k: int| 0 <= k < last && act[k] == prev.0[j];
    }
    assert forall|k: int| 0 <= k < prev.1.len() implies #[trigger] prev.1[k] != r by {
        if fc.contains(prev.1[k]) {
            let i = choose|i: int| 0 <= i < fc.len() && fc[i] == prev.1[k];
            assert(act[last].3 != Allocation::Reg(fc[i]));
        } else {
            let i = choose|i: int| 0 <= i < pre.len() && (#[trigger] pre[i]).2 <= s && pre[i].3 == Allocation::Reg(prev.1[k]);
            assert(pre[i] == act[i]);
        }
    }
    assert forall|k: int| 0 <= k < prev.2.len() implies #[trigger] prev.2[k] != r by {
        if fe.contains(prev.2[k]) {
            let i = choose|i: int| 0 <= i < fe.len() && fe[i] == prev.2[k];
            assert(act[last].3 != Allocation::Reg(fe[i]));
        } else {
            let i = choose|i: int| 0 <= i < pre.len() && (#[trigger] pre[i]).2 <= s && pre[i].3 == Allocation::Reg(prev.2[k]);
            assert(pre[i] == act[i]);
        }
    }
    let ex = expire(act, s, fc, fe);
    // Origins of the free lists carry over from `pre` to `act`.
    assert forall|x: Reg| expired_reg(pre, s, x) implies expired_reg(act, s, x) by {
        let i = choose|i: int| 0 <= i < pre.len() && (#[trigger] pre[i]).2 <= s && pre[i].3 == Allocation::Reg(x);
        assert(pre[i] == act[i]);
    }
    if a.2 <= s {
        assert(ex.0 == prev.0);
        assert(expired_reg(act, s, r));
        let fr = free_reg(prev.1, prev.2, a.3);
        assert(ex.1 == fr.0 && ex.2 == fr.1);
        assert forall|k: int| 0 <= k < act.len() && (#[trigger] act[k]).2 > s implies exists|j: int| 0 <= j < ex.0.len() && ex.0[j] == act[k] by {
            assert(k != last);
            assert(pre[k] == act[k]);
        }
        assert forall|k: int| 0 <= k < ex.1.len() implies fc.contains(#[trigger] ex.1[k]) || expired_reg(act, s, ex.1[k]) by {
            if k < prev.1.len() {
                assert(ex.1[k] == prev.1[k]);
            }
        }
        assert forall|k: int| 0 <= k < ex.2.len() implies fe.contains(#[trigger] ex.2[k]) || expired_reg(act, s, ex.2[k]) by {
            if k < prev.2.len() {
                assert(ex.2[k] == prev.2[k]);
            }
        }
        assert(free_ok(ex.0, ex.1, ex.2)) by {
            assert forall|k1: int, k2: int| 0 <= k1 < ex.1.len() && 0 <= k2 < ex.2.len() implies #[trigger] ex.1[k1] != #[trigger] ex.2[k2] by {
                if k1 < prev.1.len() {
                    assert(ex.1[k1] == prev.1[k1]);
                }
                if k2 < prev.2.len() {
                    assert(ex.2[k2] == prev.2[k2]);
                }
            }
            assert forall|j: int, k: int| 0 <= j < ex.0.len() && 0 <= k < ex.1.len() implies (#[trigger] ex.0[j]).3 != Allocation::Reg(#[trigger] ex.1[k]) by {
                if k < prev.1.len() {
                    assert(ex.1[k] == prev.1[k]);
                }
            }
            assert forall|j: int, k: int| 0 <= j < ex.0.len() && 0 <= k < ex.2.len() implies (#[trigger] ex.0[j]).3 != Allocation::Reg(#[trigger] ex.2[k]) by {
                if k < prev.2.len() {
                    assert(ex.2[k] == prev.2[k]);
                }
            }
            if in_caller_pool(r) {
                assert(ex.1 == prev.1.push(r));
                assert forall|k1: int, k2: int| 0 <= k1 < ex.1.len() && 0 <= k2 < ex.1.len() && k1 != k2 implies ex.1[k1] != ex.1[k2] by {
                    if k1 < prev.1.len() && k2 < prev.1.len() {
                        assert(ex.1[k1] == prev.1[k1] && ex.1[k2] == prev.1[k2]);
                    } else if k1 < prev.1.len() {
                        assert(ex.1[k1] == prev.1[k1]);
                    } else {
                        assert(ex.1[k2] == prev.1[k2]);
                    }
                }
            } else if in_callee_pool(r) {
                assert(ex.2 == prev.2.push(r));
                assert forall|k1: int, k2: int| 0 <= k1 < ex.2.len() && 0 <= k2 < ex.2.len() && k1 != k2 implies ex.2[k1] != ex.2[k2] by {
                    if k1 < prev.2.len() && k2 < prev.2.len() {
                        assert(ex.2[k1] == prev.2[k1] && ex.2[k2] == prev.2[k2]);
                    } else if k1 < prev.2.len() {
                        assert(ex.2[k1] == prev.2[k1]);
                    } else {
                        assert(ex.2[k2] == prev.2[k2]);
                    }
                }
            }
        }
    } else {
        assert(ex.0 == prev.0.push(a));
        assert(ex.1 == prev.1 && ex.2 == prev.2);
        assert forall|j: int| 0 <= j < ex.0.len() implies (exists|k: int| 0 <= k < act.len() && act[k] == #[trigger] ex.0[j]) && ex.0[j].2 > s by {
            if j < prev.0.len() {
                assert(ex.0[j] == prev.0[j]);
                let k = choose|k: int| 0 <= k < last && act[k] == prev.0[j];
            } else {
                assert(ex.0[j] == act[last]);
            }
        }
        assert forall|k: int| 0 <= k < act.len() && (#[trigger] act[k]).2 > s implies exists|j: int| 0 <= j < ex.0.len() && ex.0[j] == act[k] by {
            if k == last {
                assert(ex.0[prev.0.len() as int] == act[k]);
            } else {
                assert(pre[k] == act[k]);
                let j = choose|j: int| 0 <= j < prev.0.len() && prev.0[j] == pre[k];
                assert(ex.0[j] == prev.0[j]);
            }
        }
        assert(act_distinct(ex.0)) by {
            assert forall|j1: int, j2: int| 0 <= j1 < ex.0.len() && 0 <= j2 < ex.0.len() && j1 != j2
                implies (#[trigger] ex.0[j1]).3 != (#[trigger] ex.0[j2]).3 by {
                if j1 < prev.0.len() {
                    assert(ex.0[j1] == prev.0[j1]);
                }
                if j2 < prev.0.len() {
                    assert(ex.0[j2] == prev.0[j2]);
                }
            }
        }
        assert(free_ok(ex.0, ex.1, ex.2)) by {
            assert forall|j: int, k: int| 0 <= j < ex.0.len() && 0 <= k < ex.1.len() implies (#[trigger] ex.0[j]).3 != Allocation::Reg(#[trigger] ex.1[k]) by {
                if j < prev.0.len() {
                    assert(ex.0[j] == prev.0[j]);
                }
            }
            assert forall|j: int, k: int| 0 <= j < ex.0.len() && 0 <= k < ex.2.len() implies (#[trigger] ex.0[j]).3 != Allocation::Reg(#[trigger] ex.2[k]) by {
                if j < prev.0.len() {
                    assert(ex.0[j] == prev.0[j]);
                }
            }
        }
    }
}

/// The scan's state keeps registers apart: see the parts.
pub open spec fn scan_safe(st: ScanState, iv: Seq<(usize, usize)>, t: int, done: Set<int>) -> bool {
    &&& st.4.len() == iv.len()
    &&& act_ok(st.0, st.4, iv, done)
    &&& act_distinct(st.0)
    &&& free_ok(st.0, st.1, st.2)
    &&& holders_ok(st.0, st.4, iv, t)
    &&& no_overlap(st.4, iv)
}

/// The state after expiry, before the new interval is placed.
proof fn lemma_after_expire(st: ScanState, iv: Seq<(usize, usize)>, t: int, done: Set<int>, s: usize)
    requires
        scan_safe(st, iv, t, done),
        t <= s,
    ensures
        ({
            let ex = expire(st.0, s, st.1, st.2);
            &&& act_ok(ex.0, st.4, iv, done)
            &&& act_distinct(ex.0)
            &&& free_ok(ex.0, ex.1, ex.2)
            &&& holders_ok(ex.0, st.4, iv, s as int)
        }),
{
    lemma_expire_safe(st.0, s, st.1, st.2);
    let ex = expire(st.0, s, st.1, st.2);
    assert forall|j: int| 0 <= j < ex.0.len() implies {
        let v = (#[trigger] ex.0[j]).0.0 as int;
        &&& 0 <= v < iv.len()
        &&& done.contains(v)
        &&& ex.0[j].3 is Reg
        &&& st.4[v] == ex.0[j].3
        &&& ex.0[j].2 == iv[v].1
    } by {
        let k = choose|k: int| 0 <= k < st.0.len() && st.0[k] == ex.0[j];
        assert(st.0[k] == ex.0[j]);
    }
    assert forall|v: int| 0 <= v < iv.len() && (#[trigger] st.4[v]) is Reg && !in_act(ex.0, v) implies iv[v].1 <= s by {
        if in_act(st.0, v) {
            let k = choose|k: int| 0 <= k < st.0.len() && (#[trigger] st.0[k]).0.0 == v;
            if st.0[k].2 > s {
                let j = choose|j: int| 0 <= j < ex.0.len() && ex.0[j] == st.0[k];
                assert(ex.0[j].0.0 == v);
            }
        }
    }
}

proof fn lemma_place_safe(
    act: Seq<Active>,
    fc: Seq<Reg>,
    fe: Seq<Reg>,
    allocs: Seq<Allocation>,
    iv: Seq<(usize, usize)>,
    done: Set<int>,
    e: Entry,
    r: Reg,
)
    requires
        allocs.len() == iv.len(),
        act_ok(act, allocs, iv, done),
        act_distinct(act),
        free_ok(act, fc, fe),
        holders_ok(act, allocs, iv, e.1 as int),
        no_overlap(allocs, iv),
        forall|j: int| 0 <= j < act.len() ==> (#[trigger] act[j]).3 != Allocation::Reg(r),
        e.0.0 < iv.len(),
        e.1 == iv[e.0.0 as int].0,
        e.2 == iv[e.0.0 as int].1,
        !done.contains(e.0.0 as int),
    ensures
        ({
            let act2 = act.insert(insert_pos(act, e.2), (e.0, e.1, e.2, Allocation::Reg(r)));
            let allocs2 = crate::regalloc::set_alloc(allocs, e.0, Allocation::Reg(r));
            &&& allocs2.len() == iv.len()
            &&& act_ok(act2, allocs2, iv, done.insert(e.0.0 as int))
            &&& act_distinct(act2)
            &&& holders_ok(act2, allocs2, iv, e.1 as int)
            &&& no_overlap(allocs2, iv)
            &&& (free_ok(act, fc, fe) && (forall|k: int| 0 <= k < fc.len() ==> fc[k] != r) && (forall|k: int| 0 <= k < fe.len() ==> fe[k] != r)
                ==> free_ok(act2, fc, fe))
        }),
{
    let w = e.0.0 as int;
    let p = insert_pos(act, e.2);
    lemma_insert_pos_bound(act, e.2);
    let x: Active = (e.0, e.1, e.2, Allocation::Reg(r));
    let act2 = act.insert(p, x);
    act.insert_ensures(p, x);
    let allocs2 = crate::regalloc::set_alloc(allocs, e.0, Allocation::Reg(r));
    assert(allocs2 == allocs.update(w, Allocation::Reg(r)));
    let done2 = done.insert(w);
    // The entries of `act2`, by where they come from.
    assert forall|j: int| 0 <= j < act2.len() implies (j == p && #[trigger] act2[j] == x) || (j < p && act2[j] == act[j])
        || (j > p && act2[j] == act[j - 1]) by {
        if j > p {
            assert(act2[(j - 1) + 1] == act[j - 1]);
        }
    }
    assert forall|j: int| 0 <= j < act.len() implies (#[trigger] act[j]).0.0 != w by {}
    assert(act_ok(act2, allocs2, iv, done2)) by {
        assert forall|j: int| 0 <= j < act2.len() implies {
            let v = (#[trigger] act2[j]).0.0 as int;
            &&& 0 <= v < iv.len()
            &&& done2.contains(v)
            &&& act2[j].3 is Reg
            &&& allocs2[v] == act2[j].3
            &&& act2[j].2 == iv[v].1
        } by {
            if j != p {
                let k = if j < p { j } else { j - 1 };
                assert(act2[j] == act[k]);
                assert(act[k].0.0 != w);
            }
        }
    }
    assert(act_distinct(act2)) by {
        assert forall|j1: int, j2: int| 0 <= j1 < act2.len() && 0 <= j2 < act2.len() && j1 != j2
            implies (#[trigger] act2[j1]).3 != (#[trigger] act2[j2]).3 by {
            let k1 = if j1 < p { j1 } else { j1 - 1 };
            let k2 = if j2 < p { j2 } else { j2 - 1 };
            if j1 != p && j2 != p {
                assert(act2[j1] == act[k1] && act2[j2] == act[k2]);
            } else if j1 == p {
                assert(act2[j2] == act[k2]);
            } else {
                assert(act2[j1] == act[k1]);
            }
        }
    }
    assert(holders_ok(act2, allocs2, iv, e.1 as int)) by {
        assert forall|v: int| 0 <= v < iv.len() && (#[trigger] allocs2[v]) is Reg && !in_act(act2, v) implies iv[v].1 <= e.1 by {
            assert(act2[p].0.0 == w);
            if v != w {
                assert(allocs2[v] == allocs[v]);
                if in_act(act, v) {
                    let k = choose|k: int| 0 <= k < act.len() && (#[trigger] act[k]).0.0 == v;
                    let j = if k < p { k } else { k + 1 };
                    assert(act2[j] == act[k]);
                }
            }
        }
    }
    assert(no_overlap(allocs2, iv)) by {
        assert forall|v1: int, v2: int| 0 <= v1 < iv.len() && 0 <= v2 < iv.len() && v1 != v2
            && (#[trigger] allocs2[v1]) is Reg && allocs2[v1] == #[trigger] allocs2[v2]
            implies iv[v1].1 <= iv[v2].0 || iv[v2].1 <= iv[v1].0 by {
            if v1 == w || v2 == w {
                let u = if v1 == w { v2 } else { v1 };
                assert(allocs2[u] == Allocation::Reg(r));
                assert(allocs2[u] == allocs[u]);
                if in_act(act, u) {
                    let k = choose|k: int| 0 <= k < act.len() && (#[trigger] act[k]).0.0 == u;
                    assert(act[k].3 == allocs[u]);
                }
                assert(iv[u].1 <= e.1);
            } else {
                assert(allocs2[v1] == allocs[v1] && allocs2[v2] == allocs[v2]);
            }
        }
    }
    if free_ok(act, fc, fe) && (forall|k: int| 0 <= k < fc.len() ==> fc[k] != r) && (forall|k: int| 0 <= k < fe.len() ==> fe[k] != r) {
        assert forall|j: int, k: int| 0 <= j < act2.len() && 0 <= k < fc.len() implies (#[trigger] act2[j]).3 != Allocation::Reg(#[trigger] fc[k]) by {
            if j != p {
                let k1 = if j < p { j } else { j - 1 };
                assert(act2[j] == act[k1]);
            }
        }
        assert forall|j: int, k: int| 0 <= j < act2.len() && 0 <= k < fe.len() implies (#[trigger] act2[j]).3 != Allocation::Reg(#[trigger] fe[k]) by {
            if j != p {
                let k1 = if j < p { j } else { j - 1 };
                assert(act2[j] == act[k1]);
            }
        }
    }
}

proof fn lemma_drop_free(act: Seq<Active>, fc: Seq<Reg>, fe: Seq<Reg>, callee: bool)
    requires
        free_ok(act, fc, fe),
        callee ==> fe.len() > 0,
        !callee ==> fc.len() > 0,
    ensures
        ({
            let r = if callee { fe.last() } else { fc.last() };
            let fc2 = if callee { fc } else { fc.drop_last() };
            let fe2 = if callee { fe.drop_last() } else { fe };
            &&& free_ok(act, fc2, fe2)
            &&& forall|k: int| 0 <= k < fc2.len() ==> fc2[k] != r
            &&& forall|k: int| 0 <= k < fe2.len() ==> fe2[k] != r
            &&& forall|j: int| 0 <= j < act.len() ==> (#[trigger] act[j]).3 != Allocation::Reg(r)
        }),
{
    let r = if callee { fe.last() } else { fc.last() };
    let fc2 = if callee { fc } else { fc.drop_last() };
    let fe2 = if callee { fe.drop_last() } else { fe };
    assert forall|k: int| 0 <= k < fc2.len() implies fc2[k] == fc[k] by {}
    assert forall|k: int| 0 <= k < fe2.len() implies fe2[k] == fe[k] by {}
    if callee {
        assert(r == fe[fe.len() - 1]);
    } else {
        assert(r == fc[fc.len() - 1]);
    }
    assert forall|k1: int, k2: int| 0 <= k1 < fc2.len() && 0 <= k2 < fe2.len() implies #[trigger] fc2[k1] != #[trigger] fe2[k2] by {
        assert(fc2[k1] == fc[k1] && fe2[k2] == fe[k2]);
    }
    assert forall|j: int, k: int| 0 <= j < act.len() && 0 <= k < fc2.len() implies (#[trigger] act[j]).3 != Allocation::Reg(#[trigger] fc2[k]) by {
        assert(fc2[k] == fc[k]);
    }
    assert forall|j: int, k: int| 0 <= j < act.len() && 0 <= k < fe2.len() implies (#[trigger] act[j]).3 != Allocation::Reg(#[trigger] fe2[k]) by {
        assert(fe2[k] == fe[k]);
    }
    assert(fc2.no_duplicates()) by {
        assert forall|k1: int, k2: int| 0 <= k1 < fc2.len() && 0 <= k2 < fc2.len() && k1 != k2 implies fc2[k1] != fc2[k2] by {
            assert(fc2[k1] == fc[k1] && fc2[k2] == fc[k2]);
        }
    }
    assert(fe2.no_duplicates()) by {
        assert forall|k1: int, k2: int| 0 <= k1 < fe2.len() && 0 <= k2 < fe2.len() && k1 != k2 implies fe2[k1] != fe2[k2] by {
            assert(fe2[k1] == fe[k1] && fe2[k2] == fe[k2]);
        }
    }
    assert forall|k: int| 0 <= k < fc2.len() implies fc2[k] != r by {
        assert(fc2[k] == fc[k]);
        if !callee {
            assert(fc[k] != fc[fc.len() - 1]);
        }
    }
    assert forall|k: int| 0 <= k < fe2.len() implies fe2[k] != r by {
        assert(fe2[k] == fe[k]);
        if callee {
            assert(fe[k] != fe[fe.len() - 1]);
        }
    }
}

proof fn lemma_steal_safe(
    act: Seq<Active>,
    fc: Seq<Reg>,
    fe: Seq<Reg>,
    allocs: Seq<Allocation>,
    iv: Seq<(usize, usize)>,
    done: Set<int>,
    e: Entry,
    c: int,
    slot: i32,
)
    requires
        allocs.len() == iv.len(),
        act_ok(act, allocs, iv, done),
        act_distinct(act),
        free_ok(act, fc, fe),
        holders_ok(act, allocs, iv, e.1 as int),
        no_overlap(allocs, iv),
        0 <= c < act.len(),
        e.0.0 < iv.len(),
        e.1 == iv[e.0.0 as int].0,
        e.2 == iv[e.0.0 as int].1,
        !done.contains(e.0.0 as int),
    ensures
        ({
            let victim = act[c];
            let r = victim.3->Reg_0;
            let act1 = act.remove(c);
            let allocs2 = crate::regalloc::set_alloc(
                crate::regalloc::set_alloc(allocs, victim.0, Allocation::SpillSlot(slot)), e.0, Allocation::Reg(r));
            let act2 = act1.insert(insert_pos(act1, e.2), (e.0, e.1, e.2, Allocation::Reg(r)));
            &&& allocs2.len() == iv.len()
            &&& act_ok(act2, allocs2, iv, done.insert(e.0.0 as int))
            &&& act_distinct(act2)
            &&& free_ok(act2, fc, fe)
            &&& holders_ok(act2, allocs2, iv, e.1 as int)
            &&& no_overlap(allocs2, iv)
        }),
{
    let victim = act[c];
    let vv = victim.0.0 as int;
    let r = victim.3->Reg_0;
    assert(victim.3 == Allocation::Reg(r));
    let act1 = act.remove(c);
    act.remove_ensures(c);
    let allocs1 = crate::regalloc::set_alloc(allocs, victim.0, Allocation::SpillSlot(slot));
    assert(allocs1 == allocs.update(vv, Allocation::SpillSlot(slot)));
    // Each entry of `act1` is an entry of `act` other than the victim.
    assert forall|j: int| 0 <= j < act1.len() implies (#[trigger] act1[j]) == act[if j < c { j } else { j + 1 }] by {}
    assert forall|j: int| 0 <= j < act1.len() implies (#[trigger] act1[j]).0.0 != vv && act1[j].3 != victim.3 by {
        let k = if j < c { j } else { j + 1 };
        assert(act1[j] == act[k]);
        assert(act[k].3 != act[c].3);
    }
    assert(act_ok(act1, allocs1, iv, done)) by {
        assert forall|j: int| 0 <= j < act1.len() implies {
            let v = (#[trigger] act1[j]).0.0 as int;
            &&& 0 <= v < iv.len()
            &&& done.contains(v)
            &&& act1[j].3 is Reg
            &&& allocs1[v] == act1[j].3
            &&& act1[j].2 == iv[v].1
        } by {
            let k = if j < c { j } else { j + 1 };
            assert(act1[j] == act[k]);
        }
    }
    assert(act_distinct(act1)) by {
        assert forall|j1: int, j2: int| 0 <= j1 < act1.len() && 0 <= j2 < act1.len() && j1 != j2
            implies (#[trigger] act1[j1]).3 != (#[trigger] act1[j2]).3 by {
            let k1 = if j1 < c { j1 } else { j1 + 1 };
            let k2 = if j2 < c { j2 } else { j2 + 1 };
            assert(act1[j1] == act[k1] && act1[j2] == act[k2]);
        }
    }
    assert(free_ok(act1, fc, fe)) by {
        assert forall|j: int, k: int| 0 <= j < act1.len() && 0 <= k < fc.len() implies (#[trigger] act1[j]).3 != Allocation::Reg(#[trigger] fc[k]) by {
            let k1 = if j < c { j } else { j + 1 };
            assert(act1[j] == act[k1]);
        }
        assert forall|j: int, k: int| 0 <= j < act1.len() && 0 <= k < fe.len() implies (#[trigger] act1[j]).3 != Allocation::Reg(#[trigger] fe[k]) by {
            let k1 = if j < c { j } else { j + 1 };
            assert(act1[j] == act[k1]);
        }
    }
    assert(holders_ok(act1, allocs1, iv, e.1 as int)) by {
        assert forall|v: int| 0 <= v < iv.len() && (#[trigger] allocs1[v]) is Reg && !in_act(act1, v) implies iv[v].1 <= e.1 by {
            assert(v != vv);
            assert(allocs1[v] == allocs[v]);
            if in_act(act, v) {
                let k = choose|k: int| 0 <= k < act.len() && (#[trigger] act[k]).0.0 == v;
                assert(k != c);
                let j = if k < c { k } else { k - 1 };
                assert(act1[j] == act[k]);
            }
        }
    }
    assert(no_overlap(allocs1, iv)) by {
        assert forall|v1: int, v2: int| 0 <= v1 < iv.len() && 0 <= v2 < iv.len() && v1 != v2
            && (#[trigger] allocs1[v1]) is Reg && allocs1[v1] == #[trigger] allocs1[v2]
            implies iv[v1].1 <= iv[v2].0 || iv[v2].1 <= iv[v1].0 by {
            assert(allocs1[v1] == allocs[v1] && allocs1[v2] == allocs[v2]);
        }
    }
    assert forall|j: int| 0 <= j < act1.len() implies (#[trigger] act1[j]).3 != Allocation::Reg(r) by {}
    lemma_place_safe(act1, fc, fe, allocs1, iv, done, e, r);
    assert forall|k: int| 0 <= k < fc.len() implies fc[k] != r by {
        assert(act[c].3 != Allocation::Reg(fc[k]));
    }
    assert forall|k: int| 0 <= k < fe.len() implies fe[k] != r by {
        assert(act[c].3 != Allocation::Reg(fe[k]));
    }
}

proof fn lemma_step_safe(st: ScanState, e: Entry, calls: Seq<bool>, iv: Seq<(usize, usize)>, t: int, done: Set<int>)
    requires
        scan_safe(st, iv, t, done),
        t <= e.1,
        e.0.0 < iv.len(),
        e.1 == iv[e.0.0 as int].0,
        e.2 == iv[e.0.0 as int].1,
        !done.contains(e.0.0 as int),
    ensures
        scan_safe(scan_step(st, e, calls), iv, e.1 as int, done.insert(e.0.0 as int)),
{
    let w = e.0.0 as int;
    let done2 = done.insert(w);
    lemma_after_expire(st, iv, t, done, e.1);
    let ex = expire(st.0, e.1, st.1, st.2);
    let crosses = crosses_call(calls, e.1, e.2);
    lemma_spill_candidate(ex.0, crosses);
    let st2 = scan_step(st, e, calls);
    if crosses && ex.2.len() > 0 || !crosses && ex.1.len() == 0 && ex.2.len() > 0 {
        lemma_drop_free(ex.0, ex.1, ex.2, true);
        lemma_place_safe(ex.0, ex.1, ex.2.drop_last(), st.4, iv, done, e, ex.2.last());
        assert(st2 == assign(ex.0, ex.1, ex.2.drop_last(), st, e, ex.2.last()));
    } else if !crosses && ex.1.len() > 0 {
        lemma_drop_free(ex.0, ex.1, ex.2, false);
        lemma_place_safe(ex.0, ex.1.drop_last(), ex.2, st.4, iv, done, e, ex.1.last());
        assert(st2 == assign(ex.0, ex.1.drop_last(), ex.2, st, e, ex.1.last()));
    } else {
        assert(st2 == spill(ex.0, ex.1, ex.2, st, e, crosses));
        let c = spill_candidate(ex.0, crosses);
        if c >= 0 && ex.0[c].2 > e.2 {
            lemma_steal_safe(ex.0, ex.1, ex.2, st.4, iv, done, e, c, st.5 as i32);
        } else {
            let allocs2 = crate::regalloc::set_alloc(st.4, e.0, Allocation::SpillSlot(st.5 as i32));
            assert(allocs2 == st.4.update(w, Allocation::SpillSlot(st.5 as i32)));
            assert(st2.4 == allocs2 && st2.0 == ex.0 && st2.1 == ex.1 && st2.2 == ex.2);
            assert forall|j: int| 0 <= j < ex.0.len() implies (#[trigger] ex.0[j]).0.0 != w by {}
            assert(act_ok(ex.0, allocs2, iv, done2)) by {
                assert forall|j: int| 0 <= j < ex.0.len() implies {
                    let v = (#[trigger] ex.0[j]).0.0 as int;
                    &&& 0 <= v < iv.len()
                    &&& done2.contains(v)
                    &&& ex.0[j].3 is Reg
                    &&& allocs2[v] == ex.0[j].3
                    &&& ex.0[j].2 == iv[v].1
                } by {
                    assert(ex.0[j].0.0 != w);
                }
            }
            assert(holders_ok(ex.0, allocs2, iv, e.1 as int)) by {
                assert forall|v: int| 0 <= v < iv.len() && (#[trigger] allocs2[v]) is Reg && !in_act(ex.0, v) implies iv[v].1 <= e.1 by {
                    assert(allocs2[v] == st.4[v]);
                }
            }
            assert(no_overlap(allocs2, iv)) by {
                assert forall|v1: int, v2: int| 0 <= v1 < iv.len() && 0 <= v2 < iv.len() && v1 != v2
                    && (#[trigger] allocs2[v1]) is Reg && allocs2[v1] == #[trigger] allocs2[v2]
                    implies iv[v1].1 <= iv[v2].0 || iv[v2].1 <= iv[v1].0 by {
                    assert(allocs2[v1] == st.4[v1] && allocs2[v2] == st.4[v2]);
                }
            }
        }
    }
}

/// The values of the entries scanned.
pub open spec fn scanned_values(es: Seq<Entry>) -> Set<int> {
    Set::new(|v: int| exists|j: int| 0 <= j < es.len() && (#[trigger] es[j]).0.0 == v)
}

proof fn lemma_scan_safe(es: Seq<Entry>, calls: Seq<bool>, iv: Seq<(usize, usize)>)
    requires
        entries_match(es, iv),
        forall|j1: int, j2: int| 0 <= j1 < es.len() && 0 <= j2 < es.len() && j1 != j2 ==> (#[trigger] es[j1]).0 != (#[trigger] es[j2]).0,
        forall|j1: int, j2: int| 0 <= j1 <= j2 < es.len() ==> (#[trigger] es[j1]).1 <= (#[trigger] es[j2]).1,
    ensures
        scan_safe(scan(es, calls, scan_init(iv.len())), iv, if es.len() == 0 { 0 } else { es.last().1 as int }, scanned_values(es)),
    decreases es.len(),
{
    if es.len() == 0 {
        let st = scan_init(iv.len());
        assert(scanned_values(es) =~= Set::empty());
        let fc = st.1;
        let fe = st.2;
        assert(fc == crate::regalloc::caller_free_init());
        assert(fe == callee_free_init());
        assert(fc.no_duplicates()) by {
            assert forall|k1: int, k2: int| 0 <= k1 < fc.len() && 0 <= k2 < fc.len() && k1 != k2 implies fc[k1] != fc[k2] by {
                assert(fc[0].0 == 17 && fc[1].0 == 16 && fc[2].0 == 15 && fc[3].0 == 14 && fc[4].0 == 13 && fc[5].0 == 12);
                assert(fc[6].0 == 11 && fc[7].0 == 10 && fc[8].0 == 31 && fc[9].0 == 30 && fc[10].0 == 29 && fc[11].0 == 28);
            }
        }
        assert(fe.no_duplicates()) by {
            assert forall|k1: int, k2: int| 0 <= k1 < fe.len() && 0 <= k2 < fe.len() && k1 != k2 implies fe[k1] != fe[k2] by {
                assert(fe[0].0 == 27 && fe[1].0 == 26 && fe[2].0 == 25 && fe[3].0 == 24 && fe[4].0 == 23 && fe[5].0 == 22);
                assert(fe[6].0 == 21 && fe[7].0 == 20 && fe[8].0 == 19 && fe[9].0 == 18 && fe[10].0 == 9);
            }
        }
        assert forall|k1: int, k2: int| 0 <= k1 < fc.len() && 0 <= k2 < fe.len() implies #[trigger] fc[k1] != #[trigger] fe[k2] by {
            assert(fc[0].0 == 17 && fc[1].0 == 16 && fc[2].0 == 15 && fc[3].0 == 14 && fc[4].0 == 13 && fc[5].0 == 12);
            assert(fc[6].0 == 11 && fc[7].0 == 10 && fc[8].0 == 31 && fc[9].0 == 30 && fc[10].0 == 29 && fc[11].0 == 28);
            assert(fe[0].0 == 27 && fe[1].0 == 26 && fe[2].0 == 25 && fe[3].0 == 24 && fe[4].0 == 23 && fe[5].0 == 22);
            assert(fe[6].0 == 21 && fe[7].0 == 20 && fe[8].0 == 19 && fe[9].0 == 18 && fe[10].0 == 9);
        }
    } else {
        let pre = es.drop_last();
        let e = es.last();
        let last = es.len() - 1;
        assert(e == es[last]);
        assert forall|j: int| 0 <= j < pre.len() implies pre[j] == es[j] by {}
        assert(entries_match(pre, iv)) by {
            assert forall|j: int| 0 <= j < pre.len() implies (#[trigger] pre[j]).0.0 < iv.len()
                && pre[j].1 == iv[pre[j].0.0 as int].0 && pre[j].2 == iv[pre[j].0.0 as int].1 by {
                assert(pre[j] == es[j]);
            }
        }
        assert forall|j1: int, j2: int| 0 <= j1 < pre.len() && 0 <= j2 < pre.len() && j1 != j2
            implies (#[trigger] pre[j1]).0 != (#[trigger] pre[j2]).0 by {
            assert(pre[j1] == es[j1] && pre[j2] == es[j2]);
        }
        assert forall|j1: int, j2: int| 0 <= j1 <= j2 < pre.len() implies (#[trigger] pre[j1]).1 <= (#[trigger] pre[j2]).1 by {
            assert(pre[j1] == es[j1] && pre[j2] == es[j2]);
        }
        lemma_scan_safe(pre, calls, iv);
        let t = if pre.len() == 0 { 0 } else { pre.last().1 as int };
        if pre.len() > 0 {
            assert(pre.last() == es[last - 1]);
        }
        let w = e.0.0 as int;
        assert(!scanned_values(pre).contains(w)) by {
            if scanned_values(pre).contains(w) {
                let j = choose|j: int| 0 <= j < pre.len() && (#[trigger] pre[j]).0.0 == w;
                assert(pre[j] == es[j]);
                assert(es[j].0 == es[last].0);
            }
        }
        assert(entries_match(es, iv));
        assert(es[last].0.0 < iv.len());
        lemma_step_safe(scan(pre, calls, scan_init(iv.len())), e, calls, iv, t, scanned_values(pre));
        assert(scanned_values(es) =~= scanned_values(pre).insert(w)) by {
            assert forall|v: int| scanned_values(es).contains(v) implies scanned_values(pre).insert(w).contains(v) by {
                let j = choose|j: int| 0 <= j < es.len() && (#[trigger] es[j]).0.0 == v;
                if j < last {
                    assert(pre[j] == es[j]);
                }
            }
            assert forall|v: int| scanned_values(pre).insert(w).contains(v) implies scanned_values(es).contains(v) by {
                if v == w {
                    assert(es[last].0.0 == v);
                } else {
                    let j = choose|j: int| 0 <= j < pre.len() && (#[trigger] pre[j]).0.0 == v;
                    assert(pre[j] == es[j]);
                }
            }
        }
    }
}

/// The scan order lists each value once, with its interval, by increasing start.
proof fn lemma_scan_order_facts(iv: Seq<(usize, usize)>)
    requires
        iv.len() <= u32::MAX + 1,
    ensures
        entries_match(scan_order(iv), iv),
        forall|j1: int, j2: int| 0 <= j1 < scan_order(iv).len() && 0 <= j2 < scan_order(iv).len() && j1 != j2
            ==> (#[trigger] scan_order(iv)[j1]).0 != (#[trigger] scan_order(iv)[j2]).0,
        forall|j1: int, j2: int| 0 <= j1 <= j2 < scan_order(iv).len() ==> (#[trigger] scan_order(iv)[j1]).1 <= (#[trigger] scan_order(iv)[j2]).1,
        scan_order(iv).len() == iv.len(),
{
    lemma_scan_order_match(iv);
    let es = scan_order(iv);
    let all = entries(iv);
    lemma_start_order_total();
    all.lemma_sort_by_ensures(start_order());
    // The scan order lists each value once.
    assert(all.no_duplicates()) by {
        assert forall|j1: int, j2: int| 0 <= j1 < all.len() && 0 <= j2 < all.len() && j1 != j2 implies all[j1] != all[j2] by {
            assert(all[j1].0.0 == j1 as u32 && all[j2].0.0 == j2 as u32);
        }
    }
    all.lemma_multiset_has_no_duplicates();
    assert forall|x: Entry| es.to_multiset().contains(x) implies es.to_multiset().count(x) == 1 by {
        assert(es.to_multiset() == all.to_multiset());
    }
    es.lemma_multiset_has_no_duplicates_conv();
    assert forall|j1: int, j2: int| 0 <= j1 < es.len() && 0 <= j2 < es.len() && j1 != j2
        implies (#[trigger] es[j1]).0 != (#[trigger] es[j2]).0 by {
        if es[j1].0 == es[j2].0 {
            assert(es[j1] == es[j2]);
        }
    }
    assert forall|j1: int, j2: int| 0 <= j1 <= j2 < es.len() implies (#[trigger] es[j1]).1 <= (#[trigger] es[j2]).1 by {
        if j1 < j2 {
            assert(start_order()(es[j1], es[j2]));
            assert(entry_leq(es[j1], es[j2]));
        }
    }
    vstd::seq_lib::to_multiset_len(all);
    vstd::seq_lib::to_multiset_len(es);
}

/// Two different values that the allocator keeps in the same register have
/// live intervals that do not overlap: one ends at or before the other
/// starts, so neither overwrites the other while it is live.
pub proof fn lemma_no_interference(f: &Function, live: LiveState, ra: RegAllocResult, v1: int, v2: int)
    requires
        f.wf(),
        live_fixpoint(f, live),
        allocation_of(f, live, ra),
        0 <= v1 < f.values@.len(),
        0 <= v2 < f.values@.len(),
        v1 != v2,
        ra.allocations@[v1] is Reg,
        ra.allocations@[v1] == ra.allocations@[v2],
    ensures
        live_intervals(f, live)[v1].1 <= live_intervals(f, live)[v2].0
            || live_intervals(f, live)[v2].1 <= live_intervals(f, live)[v1].0,
{
    let iv = live_intervals(f, live);
    let calls = number_blocks(f, block_order(f)).2;
    lemma_intervals_len(f, live);
    lemma_scan_order_facts(iv);
    let es = scan_order(iv);
    lemma_scan_safe(es, calls, iv);
}

// ---------------------------------------------------------------------------
// Values that are spilled

/// The scanned values that are spilled have slots below `next`, each its
/// own; the values not yet scanned still hold their placeholder.
/// Some scanned value sits in spill slot `s`.
pub open spec fn slot_held(allocs: Seq<Allocation>, done: Set<int>, s: int) -> bool {
    exists|v: int| 0 <= v < allocs.len() && done.contains(v) && #[trigger] allocs[v] == Allocation::SpillSlot(s as i32)
}

pub open spec fn slots_ok(allocs: Seq<Allocation>, done: Set<int>, next: int) -> bool {
    &&& forall|s: int| 0 <= s < next ==> #[trigger] slot_held(allocs, done, s)
    &&& forall|v: int| 0 <= v < allocs.len() && done.contains(v) ==>
            ((#[trigger] allocs[v]) matches Allocation::SpillSlot(s) ==> 0 <= s < next)
    &&& forall|v: int| 0 <= v < allocs.len() && !done.contains(v) ==> #[trigger] allocs[v] == Allocation::SpillSlot(0)
    &&& forall|v1: int, v2: int| 0 <= v1 < allocs.len() && 0 <= v2 < allocs.len() && v1 != v2
            && done.contains(v1) && done.contains(v2) && (#[trigger] allocs[v1]) is SpillSlot
            ==> allocs[v1] != #[trigger] allocs[v2]
}

proof fn lemma_step_slots_distinct(st: ScanState, e: Entry, calls: Seq<bool>, iv: Seq<(usize, usize)>, t: int, done: Set<int>)
    requires
        scan_safe(st, iv, t, done),
        slots_ok(st.4, done, st.5),
        0 <= st.5 < i32::MAX,
        t <= e.1,
        e.0.0 < iv.len(),
        e.1 == iv[e.0.0 as int].0,
        e.2 == iv[e.0.0 as int].1,
        !done.contains(e.0.0 as int),
    ensures
        slots_ok(scan_step(st, e, calls).4, done.insert(e.0.0 as int), scan_step(st, e, calls).5),
        st.5 <= scan_step(st, e, calls).5 <= st.5 + 1,
{
    let w = e.0.0 as int;
    let done2 = done.insert(w);
    lemma_after_expire(st, iv, t, done, e.1);
    let ex = expire(st.0, e.1, st.1, st.2);
    let crosses = crosses_call(calls, e.1, e.2);
    lemma_spill_candidate(ex.0, crosses);
    let st2 = scan_step(st, e, calls);
    let next = st.5;
    let takes = crosses && ex.2.len() > 0 || !crosses && (ex.1.len() > 0 || ex.2.len() > 0);
    if takes {
        let r = if crosses || ex.1.len() == 0 { ex.2.last() } else { ex.1.last() };
        assert(st2.4 == st.4.update(w, Allocation::Reg(r)));
        assert(st2.5 == next);
        assert forall|v1: int, v2: int| 0 <= v1 < st2.4.len() && 0 <= v2 < st2.4.len() && v1 != v2
            && done2.contains(v1) && done2.contains(v2) && (#[trigger] st2.4[v1]) is SpillSlot
            implies st2.4[v1] != #[trigger] st2.4[v2] by {
            assert(v1 != w);
            if v2 != w {
                assert(st2.4[v1] == st.4[v1] && st2.4[v2] == st.4[v2]);
            }
        }
        assert forall|v: int| 0 <= v < st2.4.len() && !done2.contains(v) implies #[trigger] st2.4[v] == Allocation::SpillSlot(0) by {
            assert(st2.4[v] == st.4[v]);
        }
        assert forall|sl: int| 0 <= sl < st2.5 implies #[trigger] slot_held(st2.4, done2, sl) by {
            assert(slot_held(st.4, done, sl));
            let u = choose|u: int| 0 <= u < st.4.len() && done.contains(u) && #[trigger] st.4[u] == Allocation::SpillSlot(sl as i32);
            assert(u != w);
            assert(st2.4[u] == st.4[u]);
        }
    } else {
        let c = spill_candidate(ex.0, crosses);
        if c >= 0 && ex.0[c].2 > e.2 {
            let victim = ex.0[c];
            let vv = victim.0.0 as int;
            let r = victim.3->Reg_0;
            assert(done.contains(vv));
            assert(vv != w);
            let a1 = st.4.update(vv, Allocation::SpillSlot(next as i32));
            assert(st2.4 == a1.update(w, Allocation::Reg(r)));
            assert(st2.5 == next + 1);
            assert(st.4[vv] is Reg);
            assert forall|sl: int| 0 <= sl < st2.5 implies #[trigger] slot_held(st2.4, done2, sl) by {
                if sl == next {
                    assert(st2.4[vv] == Allocation::SpillSlot(sl as i32));
                } else {
                    assert(slot_held(st.4, done, sl));
                    let u = choose|u: int| 0 <= u < st.4.len() && done.contains(u) && #[trigger] st.4[u] == Allocation::SpillSlot(sl as i32);
                    assert(u != w && u != vv);
                    assert(st2.4[u] == st.4[u]);
                }
            }
            assert forall|v: int| 0 <= v < st2.4.len() && done2.contains(v) implies
                ((#[trigger] st2.4[v]) matches Allocation::SpillSlot(s) ==> 0 <= s < next + 1) by {
                if v != vv && v != w {
                    assert(st2.4[v] == st.4[v]);
                }
            }
            assert forall|v: int| 0 <= v < st2.4.len() && !done2.contains(v) implies #[trigger] st2.4[v] == Allocation::SpillSlot(0) by {
                assert(st2.4[v] == st.4[v]);
            }
            assert forall|v1: int, v2: int| 0 <= v1 < st2.4.len() && 0 <= v2 < st2.4.len() && v1 != v2
                && done2.contains(v1) && done2.contains(v2) && (#[trigger] st2.4[v1]) is SpillSlot
                implies st2.4[v1] != #[trigger] st2.4[v2] by {
                assert(v1 != w);
                if v1 == vv {
                    if v2 != w {
                        assert(st2.4[v2] == st.4[v2]);
                    }
                } else if v2 == vv {
                    assert(st2.4[v1] == st.4[v1]);
                } else if v2 != w {
                    assert(st2.4[v1] == st.4[v1] && st2.4[v2] == st.4[v2]);
                }
            }
        } else {
            assert(st2.4 == st.4.update(w, Allocation::SpillSlot(next as i32)));
            assert(st2.5 == next + 1);
            assert forall|sl: int| 0 <= sl < st2.5 implies #[trigger] slot_held(st2.4, done2, sl) by {
                if sl == next {
                    assert(st2.4[w] == Allocation::SpillSlot(sl as i32));
                } else {
                    assert(slot_held(st.4, done, sl));
                    let u = choose|u: int| 0 <= u < st.4.len() && done.contains(u) && #[trigger] st.4[u] == Allocation::SpillSlot(sl as i32);
                    assert(u != w);
                    assert(st2.4[u] == st.4[u]);
                }
            }
            assert forall|v: int| 0 <= v < st2.4.len() && done2.contains(v) implies
                ((#[trigger] st2.4[v]) matches Allocation::SpillSlot(s) ==> 0 <= s < next + 1) by {
                if v != w {
                    assert(st2.4[v] == st.4[v]);
                }
            }
            assert forall|v: int| 0 <= v < st2.4.len() && !done2.contains(v) implies #[trigger] st2.4[v] == Allocation::SpillSlot(0) by {
                assert(st2.4[v] == st.4[v]);
            }
            assert forall|v1: int, v2: int| 0 <= v1 < st2.4.len() && 0 <= v2 < st2.4.len() && v1 != v2
                && done2.contains(v1) && done2.contains(v2) && (#[trigger] st2.4[v1]) is SpillSlot
                implies st2.4[v1] != #[trigger] st2.4[v2] by {
                if v1 == w {
                    assert(st2.4[v2] == st.4[v2]);
                } else if v2 == w {
                    assert(st2.4[v1] == st.4[v1]);
                } else {
                    assert(st2.4[v1] == st.4[v1] && st2.4[v2] == st.4[v2]);
                }
            }
        }
    }
}

proof fn lemma_scan_slots_distinct(es: Seq<Entry>, calls: Seq<bool>, iv: Seq<(usize, usize)>)
    requires
        entries_match(es, iv),
        es.len() < i32::MAX,
        forall|j1: int, j2: int| 0 <= j1 < es.len() && 0 <= j2 < es.len() && j1 != j2 ==> (#[trigger] es[j1]).0 != (#[trigger] es[j2]).0,
        forall|j1: int, j2: int| 0 <= j1 <= j2 < es.len() ==> (#[trigger] es[j1]).1 <= (#[trigger] es[j2]).1,
    ensures
        slots_ok(scan(es, calls, scan_init(iv.len())).4, scanned_values(es), scan(es, calls, scan_init(iv.len())).5),
        0 <= scan(es, calls, scan_init(iv.len())).5 <= es.len(),
    decreases es.len(),
{
    if es.len() == 0 {
        assert(scanned_values(es) =~= Set::empty());
    } else {
        let pre = es.drop_last();
        let e = es.last();
        let last = es.len() - 1;
        assert(e == es[last]);
        assert forall|j: int| 0 <= j < pre.len() implies pre[j] == es[j] by {}
        assert(entries_match(pre, iv)) by {
            assert forall|j: int| 0 <= j < pre.len() implies (#[trigger] pre[j]).0.0 < iv.len()
                && pre[j].1 == iv[pre[j].0.0 as int].0 && pre[j].2 == iv[pre[j].0.0 as int].1 by {
                assert(pre[j] == es[j]);
            }
        }
        assert forall|j1: int, j2: int| 0 <= j1 < pre.len() && 0 <= j2 < pre.len() && j1 != j2
            implies (#[trigger] pre[j1]).0 != (#[trigger] pre[j2]).0 by {
            assert(pre[j1] == es[j1] && pre[j2] == es[j2]);
        }
        assert forall|j1: int, j2: int| 0 <= j1 <= j2 < pre.len() implies (#[trigger] pre[j1]).1 <= (#[trigger] pre[j2]).1 by {
            assert(pre[j1] == es[j1] && pre[j2] == es[j2]);
        }
        lemma_scan_slots_distinct(pre, calls, iv);
        lemma_scan_safe(pre, calls, iv);
        let t = if pre.len() == 0 { 0 } else { pre.last().1 as int };
        if pre.len() > 0 {
            assert(pre.last() == es[last - 1]);
        }
        let w = e.0.0 as int;
        assert(!scanned_values(pre).contains(w)) by {
            if scanned_values(pre).contains(w) {
                let j = choose|j: int| 0 <= j < pre.len() && (#[trigger] pre[j]).0.0 == w;
                assert(pre[j] == es[j]);
                assert(es[j].0 == es[last].0);
            }
        }
        assert(es[last].0.0 < iv.len());
        lemma_step_slots_distinct(scan(pre, calls, scan_init(iv.len())), e, calls, iv, t, scanned_values(pre));
        assert(scanned_values(es) =~= scanned_values(pre).insert(w)) by {
            assert forall|v: int| scanned_values(es).contains(v) implies scanned_values(pre).insert(w).contains(v) by {
                let j = choose|j: int| 0 <= j < es.len() && (#[trigger] es[j]).0.0 == v;
                if j < last {
                    assert(pre[j] == es[j]);
                }
            }
            assert forall|v: int| scanned_values(pre).insert(w).contains(v) implies scanned_values(es).contains(v) by {
                if v == w {
                    assert(es[last].0.0 == v);
                } else {
                    let j = choose|j: int| 0 <= j < pre.len() && (#[trigger] pre[j]).0.0 == v;
                    assert(pre[j] == es[j]);
                }
            }
        }
    }
}

/// Two different values that the allocator spills go to different spill
/// slots, and every slot is below the count of slots it reports.
pub proof fn lemma_spill_slots_distinct(f: &Function, live: LiveState, ra: RegAllocResult, v1: int, v2: int)
    requires
        f.wf(),
        f.values@.len() < i32::MAX,
        live_fixpoint(f, live),
        allocation_of(f, live, ra),
        0 <= v1 < f.values@.len(),
        0 <= v2 < f.values@.len(),
        v1 != v2,
        ra.allocations@[v1] is SpillSlot,
    ensures
        ra.allocations@[v1] != ra.allocations@[v2],
        0 <= ra.allocations@[v1]->SpillSlot_0 < ra.num_spill_slots,
{
    let iv = live_intervals(f, live);
    let calls = number_blocks(f, block_order(f)).2;
    lemma_intervals_len(f, live);
    lemma_scan_order_facts(iv);
    let es = scan_order(iv);
    lemma_scan_slots_distinct(es, calls, iv);
    lemma_scan_callee(es, calls, iv);
    crate::regalloc::lemma_all_scanned(iv, v1);
    crate::regalloc::lemma_all_scanned(iv, v2);
    let j1 = choose|j: int| 0 <= j < es.len() && (#[trigger] es[j]).0.0 == v1;
    let j2 = choose|j: int| 0 <= j < es.len() && (#[trigger] es[j]).0.0 == v2;
    assert(scanned_values(es).contains(v1));
    assert(scanned_values(es).contains(v2));
}

/// The spill slots in use are exactly `0 .. num_spill_slots`: each slot
/// below the count holds some value.
pub proof fn lemma_spill_slots_dense(f: &Function, live: LiveState, ra: RegAllocResult, s: int)
    requires
        f.wf(),
        f.values@.len() < i32::MAX,
        live_fixpoint(f, live),
        allocation_of(f, live, ra),
        0 <= s < ra.num_spill_slots,
    ensures
        exists|v: int| 0 <= v < f.values@.len() && #[trigger] ra.allocations@[v] == Allocation::SpillSlot(s as i32),
{
    let iv = live_intervals(f, live);
    let calls = number_blocks(f, block_order(f)).2;
    lemma_intervals_len(f, live);
    lemma_scan_order_facts(iv);
    let es = scan_order(iv);
    lemma_scan_slots_distinct(es, calls, iv);
    assert(slot_held(ra.allocations@, scanned_values(es), s));
}

// ---------------------------------------------------------------------------
// The callee-saved registers reported

/// Every free register of the state is in the pool it belongs to.
pub open spec fn pools_ok(fc: Seq<Reg>, fe: Seq<Reg>) -> bool {
    &&& forall|k: int| 0 <= k < fc.len() ==> in_caller_pool(#[trigger] fc[k])
    &&& forall|k: int| 0 <= k < fe.len() ==> in_callee_pool(#[trigger] fe[k])
}

/// Some scanned value holds register number `k`.
pub open spec fn reg_held(allocs: Seq<Allocation>, done: Set<int>, k: int) -> bool {
    exists|v: int| 0 <= v < allocs.len() && done.contains(v) && #[trigger] allocs[v] == Allocation::Reg(Reg(k as u8))
}

/// The flags name exactly the callee-saved registers that scanned values hold.
pub open spec fn used_ok(used: Seq<bool>, allocs: Seq<Allocation>, done: Set<int>) -> bool {
    &&& used.len() == 32
    &&& forall|k: int| 0 <= k < 32 && #[trigger] used[k] ==> in_callee_pool(Reg(k as u8)) && reg_held(allocs, done, k)
    &&& forall|v: int| 0 <= v < allocs.len() && done.contains(v) && (#[trigger] allocs[v]) is Reg
            && in_callee_pool(allocs[v]->Reg_0) ==> used[allocs[v]->Reg_0.0 as int]
    &&& forall|v: int| 0 <= v < allocs.len() && done.contains(v) && (#[trigger] allocs[v]) is Reg
            ==> in_caller_pool(allocs[v]->Reg_0) || in_callee_pool(allocs[v]->Reg_0)
}

proof fn lemma_expire_pools(act: Seq<Active>, start: usize, fc: Seq<Reg>, fe: Seq<Reg>)
    requires
        pools_ok(fc, fe),
    ensures
        pools_ok(expire(act, start, fc, fe).1, expire(act, start, fc, fe).2),
        expire(act, start, fc, fe).0.len() <= act.len(),
    decreases act.len(),
{
    if act.len() > 0 {
        lemma_expire_pools(act.drop_last(), start, fc, fe);
        let prev = expire(act.drop_last(), start, fc, fe);
        let a = act.last();
        if a.2 <= start {
            let fr = free_reg(prev.1, prev.2, a.3);
            assert forall|k: int| 0 <= k < fr.0.len() implies in_caller_pool(#[trigger] fr.0[k]) by {
                if k < prev.1.len() {
                    assert(fr.0[k] == prev.1[k]);
                }
            }
            assert forall|k: int| 0 <= k < fr.1.len() implies in_callee_pool(#[trigger] fr.1[k]) by {
                if k < prev.2.len() {
                    assert(fr.1[k] == prev.2[k]);
                }
            }
        }
    }
}

proof fn lemma_step_used(st: ScanState, e: Entry, calls: Seq<bool>, iv: Seq<(usize, usize)>, t: int, done: Set<int>)
    requires
        scan_safe(st, iv, t, done),
        used_ok(st.3, st.4, done),
        pools_ok(st.1, st.2),
        t <= e.1,
        e.0.0 < iv.len(),
        e.1 == iv[e.0.0 as int].0,
        e.2 == iv[e.0.0 as int].1,
        !done.contains(e.0.0 as int),
    ensures
        used_ok(scan_step(st, e, calls).3, scan_step(st, e, calls).4, done.insert(e.0.0 as int)),
        pools_ok(scan_step(st, e, calls).1, scan_step(st, e, calls).2),
{
    let w = e.0.0 as int;
    let done2 = done.insert(w);
    lemma_after_expire(st, iv, t, done, e.1);
    lemma_expire_pools(st.0, e.1, st.1, st.2);
    let ex = expire(st.0, e.1, st.1, st.2);
    let crosses = crosses_call(calls, e.1, e.2);
    lemma_spill_candidate(ex.0, crosses);
    let st2 = scan_step(st, e, calls);
    let takes = crosses && ex.2.len() > 0 || !crosses && (ex.1.len() > 0 || ex.2.len() > 0);
    if takes {
        let from_callee = crosses || ex.1.len() == 0;
        let r = if from_callee { ex.2.last() } else { ex.1.last() };
        if from_callee {
            assert(in_callee_pool(ex.2[ex.2.len() - 1]));
            assert(st2.1 == ex.1 && st2.2 == ex.2.drop_last());
            assert forall|k: int| 0 <= k < st2.2.len() implies in_callee_pool(#[trigger] st2.2[k]) by {
                assert(st2.2[k] == ex.2[k]);
            }
        } else {
            assert(in_caller_pool(ex.1[ex.1.len() - 1]));
            assert(st2.1 == ex.1.drop_last() && st2.2 == ex.2);
            assert forall|k: int| 0 <= k < st2.1.len() implies in_caller_pool(#[trigger] st2.1[k]) by {
                assert(st2.1[k] == ex.1[k]);
            }
        }
        assert(st2.4 == st.4.update(w, Allocation::Reg(r)));
        assert(st2.3 == if in_callee_pool(r) { st.3.update(r.0 as int, true) } else { st.3 });
        assert forall|k: int| 0 <= k < 32 && #[trigger] st2.3[k] implies in_callee_pool(Reg(k as u8)) && reg_held(st2.4, done2, k) by {
            if in_callee_pool(r) && k == r.0 as int {
                assert(Reg(k as u8) == r);
                assert(st2.4[w] == Allocation::Reg(Reg(k as u8)));
            } else {
                assert(st.3[k]);
                assert(reg_held(st.4, done, k));
                let u = choose|u: int| 0 <= u < st.4.len() && done.contains(u) && #[trigger] st.4[u] == Allocation::Reg(Reg(k as u8));
                assert(u != w);
                assert(st2.4[u] == st.4[u]);
            }
        }
        assert forall|v: int| 0 <= v < st2.4.len() && done2.contains(v) && (#[trigger] st2.4[v]) is Reg
            && in_callee_pool(st2.4[v]->Reg_0) implies st2.3[st2.4[v]->Reg_0.0 as int] by {
            if v != w {
                assert(st2.4[v] == st.4[v]);
            }
        }
        assert forall|v: int| 0 <= v < st2.4.len() && done2.contains(v) && (#[trigger] st2.4[v]) is Reg
            implies in_caller_pool(st2.4[v]->Reg_0) || in_callee_pool(st2.4[v]->Reg_0) by {
            if v != w {
                assert(st2.4[v] == st.4[v]);
            }
        }
    } else {
        assert(st2.1 == ex.1 && st2.2 == ex.2);
        assert(st2.3 == st.3);
        let c = spill_candidate(ex.0, crosses);
        if c >= 0 && ex.0[c].2 > e.2 {
            let victim = ex.0[c];
            let vv = victim.0.0 as int;
            let r = victim.3->Reg_0;
            assert(done.contains(vv));
            assert(vv != w);
            assert(st.4[vv] == Allocation::Reg(r));
            let a1 = st.4.update(vv, Allocation::SpillSlot(st.5 as i32));
            assert(st2.4 == a1.update(w, Allocation::Reg(r)));
            assert forall|k: int| 0 <= k < 32 && #[trigger] st2.3[k] implies in_callee_pool(Reg(k as u8)) && reg_held(st2.4, done2, k) by {
                assert(reg_held(st.4, done, k));
                if k == r.0 as int {
                    assert(Reg(k as u8) == r);
                    assert(st2.4[w] == Allocation::Reg(Reg(k as u8)));
                } else {
                    let u = choose|u: int| 0 <= u < st.4.len() && done.contains(u) && #[trigger] st.4[u] == Allocation::Reg(Reg(k as u8));
                    assert(u != w && u != vv);
                    assert(st2.4[u] == st.4[u]);
                }
            }
            assert forall|v: int| 0 <= v < st2.4.len() && done2.contains(v) && (#[trigger] st2.4[v]) is Reg
                && in_callee_pool(st2.4[v]->Reg_0) implies st2.3[st2.4[v]->Reg_0.0 as int] by {
                if v == w {
                    assert(st.4[vv] is Reg && in_callee_pool(st.4[vv]->Reg_0));
                } else if v != vv {
                    assert(st2.4[v] == st.4[v]);
                }
            }
            assert forall|v: int| 0 <= v < st2.4.len() && done2.contains(v) && (#[trigger] st2.4[v]) is Reg
                implies in_caller_pool(st2.4[v]->Reg_0) || in_callee_pool(st2.4[v]->Reg_0) by {
                if v == w {
                    assert(st.4[vv] is Reg);
                } else if v != vv {
                    assert(st2.4[v] == st.4[v]);
                }
            }
        } else {
            assert(st2.4 == st.4.update(w, Allocation::SpillSlot(st.5 as i32)));
            assert forall|k: int| 0 <= k < 32 && #[trigger] st2.3[k] implies in_callee_pool(Reg(k as u8)) && reg_held(st2.4, done2, k) by {
                assert(reg_held(st.4, done, k));
                let u = choose|u: int| 0 <= u < st.4.len() && done.contains(u) && #[trigger] st.4[u] == Allocation::Reg(Reg(k as u8));
                assert(u != w);
                assert(st2.4[u] == st.4[u]);
            }
            assert forall|v: int| 0 <= v < st2.4.len() && done2.contains(v) && (#[trigger] st2.4[v]) is Reg
                && in_callee_pool(st2.4[v]->Reg_0) implies st2.3[st2.4[v]->Reg_0.0 as int] by {
                assert(v != w);
                assert(st2.4[v] == st.4[v]);
            }
            assert forall|v: int| 0 <= v < st2.4.len() && done2.contains(v) && (#[trigger] st2.4[v]) is Reg
                implies in_caller_pool(st2.4[v]->Reg_0) || in_callee_pool(st2.4[v]->Reg_0) by {
                assert(v != w);
                assert(st2.4[v] == st.4[v]);
            }
        }
    }
}

proof fn lemma_scan_used(es: Seq<Entry>, calls: Seq<bool>, iv: Seq<(usize, usize)>)
    requires
        entries_match(es, iv),
        forall|j1: int, j2: int| 0 <= j1 < es.len() && 0 <= j2 < es.len() && j1 != j2 ==> (#[trigger] es[j1]).0 != (#[trigger] es[j2]).0,
        forall|j1: int, j2: int| 0 <= j1 <= j2 < es.len() ==> (#[trigger] es[j1]).1 <= (#[trigger] es[j2]).1,
    ensures
        used_ok(scan(es, calls, scan_init(iv.len())).3, scan(es, calls, scan_init(iv.len())).4, scanned_values(es)),
        pools_ok(scan(es, calls, scan_init(iv.len())).1, scan(es, calls, scan_init(iv.len())).2),
    decreases es.len(),
{
    if es.len() == 0 {
        let st = scan_init(iv.len());
        assert(scanned_values(es) =~= Set::empty());
        assert(st.1 == caller_free_init() && st.2 == callee_free_init());
        assert forall|k: int| 0 <= k < st.1.len() implies in_caller_pool(#[trigger] st.1[k]) by {}
        assert forall|k: int| 0 <= k < st.2.len() implies in_callee_pool(#[trigger] st.2[k]) by {}
        assert forall|k: int| 0 <= k < 32 implies !(#[trigger] st.3[k]) by {}
    } else {
        let pre = es.drop_last();
        let e = es.last();
        let last = es.len() - 1;
        assert(e == es[last]);
        assert forall|j: int| 0 <= j < pre.len() implies pre[j] == es[j] by {}
        assert(entries_match(pre, iv)) by {
            assert forall|j: int| 0 <= j < pre.len() implies (#[trigger] pre[j]).0.0 < iv.len()
                && pre[j].1 == iv[pre[j].0.0 as int].0 && pre[j].2 == iv[pre[j].0.0 as int].1 by {
                assert(pre[j] == es[j]);
            }
        }
        assert forall|j1: int, j2: int| 0 <= j1 < pre.len() && 0 <= j2 < pre.len() && j1 != j2
            implies (#[trigger] pre[j1]).0 != (#[trigger] pre[j2]).0 by {
            assert(pre[j1] == es[j1] && pre[j2] == es[j2]);
        }
        assert forall|j1: int, j2: int| 0 <= j1 <= j2 < pre.len() implies (#[trigger] pre[j1]).1 <= (#[trigger] pre[j2]).1 by {
            assert(pre[j1] == es[j1] && pre[j2] == es[j2]);
        }
        lemma_scan_used(pre, calls, iv);
        lemma_scan_safe(pre, calls, iv);
        let t = if pre.len() == 0 { 0 } else { pre.last().1 as int };
        if pre.len() > 0 {
            assert(pre.last() == es[last - 1]);
        }
        let w = e.0.0 as int;
        assert(!scanned_values(pre).contains(w)) by {
            if scanned_values(pre).contains(w) {
                let j = choose|j: int| 0 <= j < pre.len() && (#[trigger] pre[j]).0.0 == w;
                assert(pre[j] == es[j]);
                assert(es[j].0 == es[last].0);
            }
        }
        assert(es[last].0.0 < iv.len());
        lemma_step_used(scan(pre, calls, scan_init(iv.len())), e, calls, iv, t, scanned_values(pre));
        assert(scanned_values(es) =~= scanned_values(pre).insert(w)) by {
            assert forall|v: int| scanned_values(es).contains(v) implies scanned_values(pre).insert(w).contains(v) by {
                let j = choose|j: int| 0 <= j < es.len() && (#[trigger] es[j]).0.0 == v;
                if j < last {
                    assert(pre[j] == es[j]);
                }
            }
            assert forall|v: int| scanned_values(pre).insert(w).contains(v) implies scanned_values(es).contains(v) by {
                if v == w {
                    assert(es[last].0.0 == v);
                } else {
                    let j = choose|j: int| 0 <= j < pre.len() && (#[trigger] pre[j]).0.0 == v;
                    assert(pre[j] == es[j]);
                }
            }
        }
    }
}

proof fn lemma_flagged_regs_contains(used: Seq<bool>, n: int, r: Reg)
    requires
        0 <= n <= used.len(),
        n <= 32,
    ensures
        flagged_regs(used, n).contains(r) <==> (r.0 < n && used[r.0 as int]),
    decreases n,
{
    if n > 0 {
        lemma_flagged_regs_contains(used, n - 1, r);
        let pre = flagged_regs(used, n - 1);
        let tail = if used[n - 1] { seq![Reg((n - 1) as u8)] } else { seq![] };
        assert(flagged_regs(used, n) == pre + tail);
        if (pre + tail).contains(r) {
            let j = choose|j: int| 0 <= j < (pre + tail).len() && (pre + tail)[j] == r;
            if j < pre.len() {
                assert(pre[j] == r);
            }
        }
        if r.0 < n && used[r.0 as int] {
            if r.0 < n - 1 {
                let j = choose|j: int| 0 <= j < pre.len() && pre[j] == r;
                assert((pre + tail)[j] == r);
            } else {
                assert(r == Reg((n - 1) as u8));
                assert((pre + tail)[pre.len() as int] == r);
            }
        }
    }
}

/// Every register the allocator hands out is one of the allocatable
/// registers: caller-saved t3..t6, a0..a7 or callee-saved s1..s11.
pub proof fn lemma_registers_from_pools(f: &Function, live: LiveState, ra: RegAllocResult, v: int)
    requires
        f.wf(),
        live_fixpoint(f, live),
        allocation_of(f, live, ra),
        0 <= v < f.values@.len(),
        ra.allocations@[v] is Reg,
    ensures
        in_caller_pool(ra.allocations@[v]->Reg_0) || in_callee_pool(ra.allocations@[v]->Reg_0),
{
    let iv = live_intervals(f, live);
    let calls = number_blocks(f, block_order(f)).2;
    lemma_intervals_len(f, live);
    lemma_scan_order_facts(iv);
    let es = scan_order(iv);
    lemma_scan_used(es, calls, iv);
    lemma_scan_callee(es, calls, iv);
    crate::regalloc::lemma_all_scanned(iv, v);
    let j = choose|j: int| 0 <= j < es.len() && (#[trigger] es[j]).0.0 == v;
    assert(scanned_values(es).contains(v));
}

/// The callee-saved registers that the allocator reports are exactly those
/// that some value holds.
pub proof fn lemma_callee_saved_exact(f: &Function, live: LiveState, ra: RegAllocResult, r: Reg)
    requires
        f.wf(),
        live_fixpoint(f, live),
        allocation_of(f, live, ra),
    ensures
        ra.used_callee_saved@.contains(r) <==> (in_callee_pool(r)
            && exists|v: int| 0 <= v < f.values@.len() && #[trigger] ra.allocations@[v] == Allocation::Reg(r)),
{
    let iv = live_intervals(f, live);
    let calls = number_blocks(f, block_order(f)).2;
    lemma_intervals_len(f, live);
    lemma_scan_order_facts(iv);
    let es = scan_order(iv);
    lemma_scan_used(es, calls, iv);
    lemma_scan_callee(es, calls, iv);
    let st = scan(es, calls, scan_init(iv.len()));
    lemma_flagged_regs_contains(st.3, 32, r);
    if ra.used_callee_saved@.contains(r) {
        assert(st.3[r.0 as int]);
        assert(Reg(r.0 as int as u8) == r);
        assert(reg_held(st.4, scanned_values(es), r.0 as int));
    }
    if in_callee_pool(r) && exists|v: int| 0 <= v < f.values@.len() && #[trigger] ra.allocations@[v] == Allocation::Reg(r) {
        let v = choose|v: int| 0 <= v < f.values@.len() && #[trigger] ra.allocations@[v] == Allocation::Reg(r);
        crate::regalloc::lemma_all_scanned(iv, v);
        let j = choose|j: int| 0 <= j < es.len() && (#[trigger] es[j]).0.0 == v;
        assert(scanned_values(es).contains(v));
        assert(st.4[v] == Allocation::Reg(r));
    }
}

} // verus!
