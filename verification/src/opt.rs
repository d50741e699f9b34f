//! Function-local optimisation: constant folding, common subexpression
//! elimination within basic blocks, and dead code elimination, repeated
//! until none of them changes the function.
//!
//! Floating-point arithmetic is not done here: where two floating-point
//! constants are folded, the caller's `fold_float` computes the result from
//! their bit patterns.
use vstd::prelude::*;
use crate::arena::{Arena, Block, EntityId, Inst, Value};
use crate::function::{inst_result, lemma_inst_result, BlockData, Function, ValueData, ValueDef};
use crate::inst::{copy_inst, same_inst, CmpOp, Immediate, Instruction};

verus! {

/// The arithmetic that constant folding evaluates.
#[derive(Clone, Copy, PartialEq, Eq, Structural, Debug)]
pub enum FoldOp {
    Add,
    Sub,
    Mul,
}

// ---------------------------------------------------------------------------
// Instructions

/// Instructions that must stay whatever their results: stores, calls and
/// terminators.
pub open spec fn spec_has_side_effects(inst: Instruction) -> bool {
    inst is Store || inst is Call || inst is Jmp || inst is Br || inst is Ret
}

pub fn has_side_effects(inst: &Instruction) -> (r: bool)
    ensures
        r == spec_has_side_effects(*inst),
{
    match inst {
        Instruction::Store(_, _, _) | Instruction::Call(_, _) | Instruction::Jmp(_) | Instruction::Br(_, _, _)
        | Instruction::Ret(_) => true,
        _ => false,
    }
}

/// The values an instruction reads, in order.
pub fn get_operands(inst: &Instruction) -> (r: Vec<Value>)
    ensures
        r@ == inst.operands(),
{
    match inst {
        Instruction::Const(_) | Instruction::Alloca(_) | Instruction::Jmp(_) => vec![],
        Instruction::Neg(v) | Instruction::Not(v) | Instruction::Load(_, v, _) | Instruction::Ret(Some(v)) => {
            vec![*v]
        }
        Instruction::Ret(None) => vec![],
        Instruction::Add(a, b) | Instruction::Sub(a, b) | Instruction::Mul(a, b) | Instruction::Div(a, b)
        | Instruction::Rem(a, b) | Instruction::And(a, b) | Instruction::Or(a, b) | Instruction::Xor(a, b)
        | Instruction::Shl(a, b) | Instruction::Shr(a, b) | Instruction::Sar(a, b) | Instruction::Cmp(_, a, b)
        | Instruction::Store(a, b, _) => vec![*a, *b],
        Instruction::Br(c, _, _) => vec![*c],
        Instruction::Call(_, args) => {
            let mut r: Vec<Value> = Vec::new();
            let mut i: usize = 0;
            while i < args.len()
                invariant
                    i <= args@.len(),
                    r@ == args@.subrange(0, i as int),
                decreases args@.len() - i,
            {
                r.push(args[i]);
                i = i + 1;
            }
            assert(args@.subrange(0, args@.len() as int) =~= args@);
            r
        }
        Instruction::Phi(pairs) => {
            let mut r: Vec<Value> = Vec::new();
            let mut i: usize = 0;
            while i < pairs.len()
                invariant
                    i <= pairs@.len(),
                    r@ == pairs@.subrange(0, i as int).map_values(|p: (Block, Value)| p.1),
                decreases pairs@.len() - i,
            {
                r.push(pairs[i].1);
                i = i + 1;
                assert(r@ =~= pairs@.subrange(0, i as int).map_values(|p: (Block, Value)| p.1));
            }
            assert(pairs@.subrange(0, pairs@.len() as int) =~= pairs@);
            r
        }
    }
}

/// Two instructions alike in everything but the values they read.
pub open spec fn same_shape(a: Instruction, b: Instruction) -> bool {
    match (a, b) {
        (Instruction::Const(x), Instruction::Const(y)) => x == y,
        (Instruction::Add(_, _), Instruction::Add(_, _)) => true,
        (Instruction::Sub(_, _), Instruction::Sub(_, _)) => true,
        (Instruction::Mul(_, _), Instruction::Mul(_, _)) => true,
        (Instruction::Div(_, _), Instruction::Div(_, _)) => true,
        (Instruction::Rem(_, _), Instruction::Rem(_, _)) => true,
        (Instruction::Neg(_), Instruction::Neg(_)) => true,
        (Instruction::Not(_), Instruction::Not(_)) => true,
        (Instruction::And(_, _), Instruction::And(_, _)) => true,
        (Instruction::Or(_, _), Instruction::Or(_, _)) => true,
        (Instruction::Xor(_, _), Instruction::Xor(_, _)) => true,
        (Instruction::Shl(_, _), Instruction::Shl(_, _)) => true,
        (Instruction::Shr(_, _), Instruction::Shr(_, _)) => true,
        (Instruction::Sar(_, _), Instruction::Sar(_, _)) => true,
        (Instruction::Cmp(o1, _, _), Instruction::Cmp(o2, _, _)) => o1 == o2,
        (Instruction::Alloca(t1), Instruction::Alloca(t2)) => t1 == t2,
        (Instruction::Load(t1, _, o1), Instruction::Load(t2, _, o2)) => t1 == t2 && o1 == o2,
        (Instruction::Store(_, _, o1), Instruction::Store(_, _, o2)) => o1 == o2,
        (Instruction::Jmp(b1), Instruction::Jmp(b2)) => b1 == b2,
        (Instruction::Br(_, t1, e1), Instruction::Br(_, t2, e2)) => t1 == t2 && e1 == e2,
        (Instruction::Ret(x), Instruction::Ret(y)) => (x is Some) == (y is Some),
        (Instruction::Call(n1, a1), Instruction::Call(n2, a2)) => n1@ == n2@ && a1@.len() == a2@.len(),
        (Instruction::Phi(p1), Instruction::Phi(p2)) => p1@.len() == p2@.len()
            && forall|k: int| 0 <= k < p1@.len() ==> (#[trigger] p1@[k]).0 == p2@[k].0,
        _ => false,
    }
}

fn call_eq(n1: &String, a1: &Vec<Value>, n2: &String, a2: &Vec<Value>) -> (r: bool)
    ensures
        r == (n1@ == n2@ && a1@ == a2@),
{
    if !crate::text::str_eq(n1.as_str(), n2.as_str()) || a1.len() != a2.len() {
        return false;
    }
    let mut i: usize = 0;
    while i < a1.len()
        invariant
            a1@.len() == a2@.len(),
            i <= a1@.len(),
            forall|k: int| 0 <= k < i ==> a1@[k] == a2@[k],
        decreases a1@.len() - i,
    {
        if a1[i] != a2[i] {
            return false;
        }
        i = i + 1;
    }
    assert(a1@ =~= a2@);
    true
}

fn phi_eq(p1: &Vec<(Block, Value)>, p2: &Vec<(Block, Value)>) -> (r: bool)
    ensures
        r == (p1@.len() == p2@.len() && (forall|k: int| 0 <= k < p1@.len() ==> (#[trigger] p1@[k]).0 == p2@[k].0)
            && p1@.map_values(|p: (Block, Value)| p.1) == p2@.map_values(|p: (Block, Value)| p.1)),
{
    if p1.len() != p2.len() {
        return false;
    }
    let mut i: usize = 0;
    while i < p1.len()
        invariant
            p1@.len() == p2@.len(),
            i <= p1@.len(),
            forall|k: int| 0 <= k < i ==> p1@[k] == p2@[k],
        decreases p1@.len() - i,
    {
        if p1[i].0 != p2[i].0 || p1[i].1 != p2[i].1 {
            assert(p1@.map_values(|p: (Block, Value)| p.1)[i as int] == p1@[i as int].1);
            assert(p2@.map_values(|p: (Block, Value)| p.1)[i as int] == p2@[i as int].1);
            return false;
        }
        i = i + 1;
    }
    assert(p1@.map_values(|p: (Block, Value)| p.1) =~= p2@.map_values(|p: (Block, Value)| p.1));
    true
}

fn imm_eq(x: Immediate, y: Immediate) -> (r: bool)
    ensures
        r == (x == y),
{
    x == y
}

/// Equality of instructions: the same shape and the same operands.
pub fn inst_eq(a: &Instruction, b: &Instruction) -> (r: bool)
    ensures
        r == (same_shape(*a, *b) && a.operands() == b.operands()),
{
    proof { lemma_ops_eq(*a, *b); }
    match a {
        Instruction::Const(x) => match b {
            Instruction::Const(y) => imm_eq(*x, *y),
            _ => false,
        },
        Instruction::Add(a1, a2) => match b {
            Instruction::Add(b1, b2) => *a1 == *b1 && *a2 == *b2,
            _ => false,
        },
        Instruction::Sub(a1, a2) => match b {
            Instruction::Sub(b1, b2) => *a1 == *b1 && *a2 == *b2,
            _ => false,
        },
        Instruction::Mul(a1, a2) => match b {
            Instruction::Mul(b1, b2) => *a1 == *b1 && *a2 == *b2,
            _ => false,
        },
        Instruction::Div(a1, a2) => match b {
            Instruction::Div(b1, b2) => *a1 == *b1 && *a2 == *b2,
            _ => false,
        },
        Instruction::Rem(a1, a2) => match b {
            Instruction::Rem(b1, b2) => *a1 == *b1 && *a2 == *b2,
            _ => false,
        },
        Instruction::And(a1, a2) => match b {
            Instruction::And(b1, b2) => *a1 == *b1 && *a2 == *b2,
            _ => false,
        },
        Instruction::Or(a1, a2) => match b {
            Instruction::Or(b1, b2) => *a1 == *b1 && *a2 == *b2,
            _ => false,
        },
        Instruction::Xor(a1, a2) => match b {
            Instruction::Xor(b1, b2) => *a1 == *b1 && *a2 == *b2,
            _ => false,
        },
        Instruction::Shl(a1, a2) => match b {
            Instruction::Shl(b1, b2) => *a1 == *b1 && *a2 == *b2,
            _ => false,
        },
        Instruction::Shr(a1, a2) => match b {
            Instruction::Shr(b1, b2) => *a1 == *b1 && *a2 == *b2,
            _ => false,
        },
        Instruction::Sar(a1, a2) => match b {
            Instruction::Sar(b1, b2) => *a1 == *b1 && *a2 == *b2,
            _ => false,
        },
        Instruction::Neg(a1) => match b {
            Instruction::Neg(b1) => *a1 == *b1,
            _ => false,
        },
        Instruction::Not(a1) => match b {
            Instruction::Not(b1) => *a1 == *b1,
            _ => false,
        },
        Instruction::Cmp(o1, a1, a2) => match b {
            Instruction::Cmp(o2, b1, b2) => *o1 == *o2 && *a1 == *b1 && *a2 == *b2,
            _ => false,
        },
        Instruction::Alloca(t1) => match b {
            Instruction::Alloca(t2) => *t1 == *t2,
            _ => false,
        },
        Instruction::Load(t1, p1, o1) => match b {
            Instruction::Load(t2, p2, o2) => *t1 == *t2 && *p1 == *p2 && *o1 == *o2,
            _ => false,
        },
        Instruction::Store(v1, p1, o1) => match b {
            Instruction::Store(v2, p2, o2) => *v1 == *v2 && *p1 == *p2 && *o1 == *o2,
            _ => false,
        },
        Instruction::Jmp(b1) => match b {
            Instruction::Jmp(b2) => *b1 == *b2,
            _ => false,
        },
        Instruction::Br(c1, t1, e1) => match b {
            Instruction::Br(c2, t2, e2) => *c1 == *c2 && *t1 == *t2 && *e1 == *e2,
            _ => false,
        },
        Instruction::Ret(x) => match b {
            Instruction::Ret(y) => match (x, y) {
                (Some(v1), Some(v2)) => *v1 == *v2,
                (None, None) => true,
                _ => false,
            },
            _ => false,
        },
        Instruction::Call(n1, a1) => match b {
            Instruction::Call(n2, a2) => call_eq(n1, a1, n2, a2),
            _ => false,
        },
        Instruction::Phi(p1) => match b {
            Instruction::Phi(p2) => phi_eq(p1, p2),
            _ => false,
        },
    }
}

// ---------------------------------------------------------------------------
// Rewriting operands

/// The table replaces `v`.
pub open spec fn mapped(remap: Seq<Option<Value>>, v: Value) -> bool {
    v.0 < remap.len() && remap[v.0 as int] is Some
}

/// A value after one replacement of a table indexed by value.
pub open spec fn replaced(remap: Seq<Option<Value>>, v: Value) -> Value {
    if mapped(remap, v) {
        remap[v.0 as int].unwrap()
    } else {
        v
    }
}

pub open spec fn replace_all(remap: Seq<Option<Value>>, vs: Seq<Value>) -> Seq<Value> {
    vs.map_values(|v: Value| replaced(remap, v))
}

/// `b` is `a` with each operand replaced once as the table says.
pub open spec fn rewritten_once(a: Instruction, b: Instruction, remap: Seq<Option<Value>>) -> bool {
    same_shape(a, b) && b.operands() == replace_all(remap, a.operands())
}

/// No value that the table replaces is also a replacement.
pub open spec fn flat(remap: Seq<Option<Value>>) -> bool {
    forall|v: int| 0 <= v < remap.len() && (#[trigger] remap[v]) is Some
        ==> remap[v].unwrap().0 < remap.len() && remap[remap[v].unwrap().0 as int] is None
}

/// Where `v` gets to after at most `n` replacements, one after the other.
pub open spec fn chase(remap: Seq<Option<Value>>, v: Value, n: nat) -> Value
    decreases n,
{
    if n == 0 || !mapped(remap, v) {
        v
    } else {
        chase(remap, replaced(remap, v), (n - 1) as nat)
    }
}

/// The chain of replacements from `v` ends: it reaches a value that the
/// table does not replace. A chain that ends visits each entry of the table
/// at most once, so it ends within as many steps as the table has entries.
pub open spec fn chain_ends(remap: Seq<Option<Value>>, v: Value) -> bool {
    !mapped(remap, chase(remap, v, remap.len()))
}

/// A value after all the replacements of its chain: the last value of the chain.
pub open spec fn resolved(remap: Seq<Option<Value>>, v: Value) -> Value {
    chase(remap, v, remap.len())
}

pub open spec fn resolve_all(remap: Seq<Option<Value>>, vs: Seq<Value>) -> Seq<Value> {
    vs.map_values(|v: Value| resolved(remap, v))
}

/// `b` is `a` with each operand replaced by the last value of its chain.
pub open spec fn rewritten(a: Instruction, b: Instruction, remap: Seq<Option<Value>>) -> bool {
    same_shape(a, b) && b.operands() == resolve_all(remap, a.operands())
}

/// In a flat table each chain has at most one step.
pub proof fn lemma_flat_chains(remap: Seq<Option<Value>>, v: Value)
    requires
        flat(remap),
    ensures
        chain_ends(remap, v),
        resolved(remap, v) == replaced(remap, v),
{
    if mapped(remap, v) {
        let w = replaced(remap, v);
        assert(remap[v.0 as int] is Some);
        assert(!mapped(remap, w));
        assert(chase(remap, v, remap.len()) == chase(remap, w, (remap.len() - 1) as nat));
        if remap.len() - 1 > 0 {
            assert(chase(remap, w, (remap.len() - 1) as nat) == w);
        }
    } else {
        assert(chase(remap, v, remap.len()) == v);
    }
}

fn resolve(remap: &Vec<Option<Value>>, v: Value) -> (r: Value)
    ensures
        r == resolved(remap@, v),
{
    let mut cur = v;
    let mut fuel: usize = remap.len();
    let mut done = false;
    while !done && fuel > 0
        invariant
            fuel <= remap@.len(),
            chase(remap@, v, remap@.len() as nat) == chase(remap@, cur, fuel as nat),
            done ==> !mapped(remap@, cur),
        decreases fuel + (if done { 0int } else { 1int }),
    {
        let i = cur.0 as usize;
        if i < remap.len() {
            match remap[i] {
                Some(n) => {
                    cur = n;
                    fuel = fuel - 1;
                }
                None => {
                    done = true;
                }
            }
        } else {
            done = true;
        }
    }
    cur
}

fn rewrite_args(args: &mut Vec<Value>, remap: &Vec<Option<Value>>)
    ensures
        final(args)@ == resolve_all(remap@, old(args)@),
        resolve_all(remap@, old(args)@) == old(args)@ ==> *final(args) == *old(args),
{
    let ghost a0 = *args;
    let mut i: usize = 0;
    while i < args.len()
        invariant
            args@.len() == a0@.len(),
            i <= args@.len(),
            forall|k: int| 0 <= k < i ==> args@[k] == resolved(remap@, a0@[k]),
            forall|k: int| i <= k < args@.len() ==> args@[k] == a0@[k],
            (forall|k: int| 0 <= k < i ==> resolved(remap@, a0@[k]) == a0@[k]) ==> *args == a0,
        decreases args@.len() - i,
    {
        let v = args[i];
        let n = resolve(remap, v);
        if n != v {
            args.set(i, n);
        }
        i = i + 1;
    }
    assert(args@ =~= resolve_all(remap@, a0@));
    proof {
        if resolve_all(remap@, a0@) == a0@ {
            assert forall|k: int| 0 <= k < a0@.len() implies resolved(remap@, a0@[k]) == a0@[k] by {
                assert(resolve_all(remap@, a0@)[k] == a0@[k]);
            }
        }
    }
}

fn rewrite_pairs(pairs: &mut Vec<(Block, Value)>, remap: &Vec<Option<Value>>)
    ensures
        final(pairs)@.len() == old(pairs)@.len(),
        forall|k: int| 0 <= k < old(pairs)@.len() ==> (#[trigger] final(pairs)@[k]).0 == old(pairs)@[k].0,
        final(pairs)@.map_values(|p: (Block, Value)| p.1)
            == resolve_all(remap@, old(pairs)@.map_values(|p: (Block, Value)| p.1)),
        resolve_all(remap@, old(pairs)@.map_values(|p: (Block, Value)| p.1))
            == old(pairs)@.map_values(|p: (Block, Value)| p.1) ==> *final(pairs) == *old(pairs),
{
    let ghost p0 = *pairs;
    let mut i: usize = 0;
    while i < pairs.len()
        invariant
            pairs@.len() == p0@.len(),
            i <= pairs@.len(),
            forall|k: int| 0 <= k < i ==> (#[trigger] pairs@[k]).1 == resolved(remap@, p0@[k].1)
                && pairs@[k].0 == p0@[k].0,
            forall|k: int| i <= k < pairs@.len() ==> pairs@[k] == p0@[k],
            (forall|k: int| 0 <= k < i ==> resolved(remap@, p0@[k].1) == p0@[k].1) ==> *pairs == p0,
        decreases pairs@.len() - i,
    {
        let (b, v) = pairs[i];
        let n = resolve(remap, v);
        if n != v {
            pairs.set(i, (b, n));
        }
        i = i + 1;
    }
    let ghost ops0 = p0@.map_values(|p: (Block, Value)| p.1);
    assert(pairs@.map_values(|p: (Block, Value)| p.1) =~= resolve_all(remap@, ops0));
    proof {
        if resolve_all(remap@, ops0) == ops0 {
            assert forall|k: int| 0 <= k < p0@.len() implies resolved(remap@, p0@[k].1) == p0@[k].1 by {
                assert(resolve_all(remap@, ops0)[k] == ops0[k]);
            }
        }
    }
}

proof fn lemma_ops_eq(a: Instruction, b: Instruction)
    ensures
        a.operands() == b.operands() ==> a.operands().len() == b.operands().len()
            && (a.operands().len() > 0 ==> a.operands()[0] == b.operands()[0])
            && (a.operands().len() > 1 ==> a.operands()[1] == b.operands()[1]),
{
}

/// Replaces each operand of an instruction by the last value of its chain of
/// replacements in the table; an instruction none of whose operands the
/// table replaces stays as it is. The chains of its operands must end.
pub fn rewrite_operands(inst: &mut Instruction, remap: &Vec<Option<Value>>)
    requires
        forall|j: int| 0 <= j < old(inst).operands().len() ==> chain_ends(remap@, #[trigger] old(inst).operands()[j]),
    ensures
        rewritten(*old(inst), *final(inst), remap@),
        resolve_all(remap@, old(inst).operands()) == old(inst).operands() ==> *final(inst) == *old(inst),
{
    let ghost o = *inst;
    let mut cur = Instruction::Ret(None);
    core::mem::swap(&mut cur, inst);
    let next = match cur {
        Instruction::Neg(v) => Instruction::Neg(resolve(remap, v)),
        Instruction::Not(v) => Instruction::Not(resolve(remap, v)),
        Instruction::Load(t, v, off) => Instruction::Load(t, resolve(remap, v), off),
        Instruction::Ret(Some(v)) => Instruction::Ret(Some(resolve(remap, v))),
        Instruction::Add(a, b) => Instruction::Add(resolve(remap, a), resolve(remap, b)),
        Instruction::Sub(a, b) => Instruction::Sub(resolve(remap, a), resolve(remap, b)),
        Instruction::Mul(a, b) => Instruction::Mul(resolve(remap, a), resolve(remap, b)),
        Instruction::Div(a, b) => Instruction::Div(resolve(remap, a), resolve(remap, b)),
        Instruction::Rem(a, b) => Instruction::Rem(resolve(remap, a), resolve(remap, b)),
        Instruction::And(a, b) => Instruction::And(resolve(remap, a), resolve(remap, b)),
        Instruction::Or(a, b) => Instruction::Or(resolve(remap, a), resolve(remap, b)),
        Instruction::Xor(a, b) => Instruction::Xor(resolve(remap, a), resolve(remap, b)),
        Instruction::Shl(a, b) => Instruction::Shl(resolve(remap, a), resolve(remap, b)),
        Instruction::Shr(a, b) => Instruction::Shr(resolve(remap, a), resolve(remap, b)),
        Instruction::Sar(a, b) => Instruction::Sar(resolve(remap, a), resolve(remap, b)),
        Instruction::Cmp(op, a, b) => Instruction::Cmp(op, resolve(remap, a), resolve(remap, b)),
        Instruction::Store(a, b, off) => Instruction::Store(resolve(remap, a), resolve(remap, b), off),
        Instruction::Br(c, t, e) => Instruction::Br(resolve(remap, c), t, e),
        Instruction::Call(name, args) => {
            let mut args = args;
            rewrite_args(&mut args, remap);
            Instruction::Call(name, args)
        }
        Instruction::Phi(pairs) => {
            let mut pairs = pairs;
            rewrite_pairs(&mut pairs, remap);
            Instruction::Phi(pairs)
        }
        other => other,
    };
    *inst = next;
    proof {
        assert(inst.operands() =~= resolve_all(remap@, o.operands()));
        if resolve_all(remap@, o.operands()) == o.operands() {
            if o.operands().len() > 0 {
                assert(resolve_all(remap@, o.operands())[0] == o.operands()[0]);
            }
            if o.operands().len() > 1 {
                assert(resolve_all(remap@, o.operands())[1] == o.operands()[1]);
            }
        }
    }
}


// ---------------------------------------------------------------------------
// Constant folding

/// The fields of a function that a pass leaves alone when it changes only
/// the instructions.
pub open spec fn same_but_insts(f: &Function, g: &Function) -> bool {
    &&& g.name == f.name
    &&& g.params == f.params
    &&& g.return_type == f.return_type
    &&& g.blocks == f.blocks
    &&& g.values == f.values
    &&& g.entry_block == f.entry_block
}

/// The constant that a value holds: the immediate of the `const`
/// instruction that defines it.
pub open spec fn const_of(f: &Function, v: Value) -> Option<Immediate> {
    if v.0 < f.values@.len() {
        match f.values@[v.0 as int].def {
            ValueDef::Inst(i) => if i.0 < f.insts@.len() {
                match f.insts@[i.0 as int] {
                    Instruction::Const(imm) => Some(imm),
                    _ => None,
                }
            } else {
                None
            },
            ValueDef::Param(_) => None,
        }
    } else {
        None
    }
}

/// What constant folding makes of an instruction: nothing, an integer
/// constant, or the floating-point result of an operation on two constants.
pub enum Folding {
    Keep,
    Int(Immediate),
    Float(FoldOp, Immediate, Immediate),
}

pub open spec fn int_arith(op: FoldOp, a: i64, b: i64) -> i64 {
    match op {
        FoldOp::Add => a.wrapping_add(b),
        FoldOp::Sub => a.wrapping_sub(b),
        FoldOp::Mul => a.wrapping_mul(b),
    }
}

/// Two floating-point constants of one width fold by floating-point
/// arithmetic; any other pair folds as 64-bit integers, with wrapping.
pub open spec fn arith_folding(op: FoldOp, x: Immediate, y: Immediate) -> Folding {
    if (x is F64 && y is F64) || (x is F32 && y is F32) {
        Folding::Float(op, x, y)
    } else {
        Folding::Int(Immediate::I64(int_arith(op, x.spec_as_i64(), y.spec_as_i64())))
    }
}

pub open spec fn as_unsigned(x: i64) -> u64 {
    x as u64
}

/// Whether a comparison holds of two 64-bit integers.
pub open spec fn comparison_holds(op: CmpOp, a: i64, b: i64) -> bool {
    match op {
        CmpOp::Eq => a == b,
        CmpOp::Ne => a != b,
        CmpOp::Lt => a < b,
        CmpOp::Gt => a > b,
        CmpOp::Le => a <= b,
        CmpOp::Ge => a >= b,
        CmpOp::Ult => as_unsigned(a) < as_unsigned(b),
        CmpOp::Ugt => as_unsigned(a) > as_unsigned(b),
        CmpOp::Ule => as_unsigned(a) <= as_unsigned(b),
        CmpOp::Uge => as_unsigned(a) >= as_unsigned(b),
    }
}

/// Additions, subtractions, multiplications and comparisons of two
/// constants fold; nothing else does.
pub open spec fn folding(f: &Function, inst: Instruction) -> Folding {
    match inst {
        Instruction::Add(a, b) => match (const_of(f, a), const_of(f, b)) {
            (Some(x), Some(y)) => arith_folding(FoldOp::Add, x, y),
            _ => Folding::Keep,
        },
        Instruction::Sub(a, b) => match (const_of(f, a), const_of(f, b)) {
            (Some(x), Some(y)) => arith_folding(FoldOp::Sub, x, y),
            _ => Folding::Keep,
        },
        Instruction::Mul(a, b) => match (const_of(f, a), const_of(f, b)) {
            (Some(x), Some(y)) => arith_folding(FoldOp::Mul, x, y),
            _ => Folding::Keep,
        },
        Instruction::Cmp(op, a, b) => match (const_of(f, a), const_of(f, b)) {
            (Some(x), Some(y)) => Folding::Int(Immediate::I64(
                if comparison_holds(op, x.spec_as_i64(), y.spec_as_i64()) { 1 } else { 0 },
            )),
            _ => Folding::Keep,
        },
        _ => Folding::Keep,
    }
}

/// `new` is what folding may make of `old`: the instruction itself, its
/// integer constant, or a constant that `fold_float` may return for it.
pub open spec fn fold_ok<F: Fn(FoldOp, Immediate, Immediate) -> Immediate>(
    f: &Function,
    old: Instruction,
    new: Instruction,
    fold_float: F,
) -> bool {
    match folding(f, old) {
        Folding::Keep => new == old,
        Folding::Int(imm) => new == Instruction::Const(imm),
        Folding::Float(op, x, y) => new matches Instruction::Const(r) && call_ensures(fold_float, (op, x, y), r),
    }
}

/// One pass of constant folding turns `f` into `g`.
pub open spec fn fold_rel<F: Fn(FoldOp, Immediate, Immediate) -> Immediate>(f: &Function, g: &Function, fold_float: F) -> bool {
    &&& same_but_insts(f, g)
    &&& g.insts@.len() == f.insts@.len()
    &&& forall|i: int| 0 <= i < f.insts@.len() ==> fold_ok(f, f.insts@[i], #[trigger] g.insts@[i], fold_float)
}

/// Some instruction of `f` folds.
pub open spec fn fold_changes(f: &Function) -> bool {
    exists|i: int| 0 <= i < f.insts@.len() && !(folding(f, #[trigger] f.insts@[i]) is Keep)
}

fn unsigned_of(x: i64) -> (r: u64)
    ensures
        r == as_unsigned(x),
{
    x as u64
}

fn eval_comparison(op: CmpOp, a: i64, b: i64) -> (r: bool)
    ensures
        r == comparison_holds(op, a, b),
{
    match op {
        CmpOp::Eq => a == b,
        CmpOp::Ne => a != b,
        CmpOp::Lt => a < b,
        CmpOp::Gt => a > b,
        CmpOp::Le => a <= b,
        CmpOp::Ge => a >= b,
        CmpOp::Ult => unsigned_of(a) < unsigned_of(b),
        CmpOp::Ugt => unsigned_of(a) > unsigned_of(b),
        CmpOp::Ule => unsigned_of(a) <= unsigned_of(b),
        CmpOp::Uge => unsigned_of(a) >= unsigned_of(b),
    }
}

/// For each value, the constant it holds.
fn const_table(func: &Function) -> (r: Vec<Option<Immediate>>)
    requires
        func.wf(),
    ensures
        r@.len() == func.values@.len(),
        forall|v: int| 0 <= v < r@.len() ==> #[trigger] r@[v] == const_of(func, Value(v as u32)),
{
    let vals = func.values.as_slice();
    let mut r: Vec<Option<Immediate>> = Vec::new();
    let mut v: usize = 0;
    while v < vals.len()
        invariant
            func.wf(),
            vals@ == func.values@,
            v <= vals@.len(),
            r@.len() == v,
            forall|k: int| 0 <= k < v ==> #[trigger] r@[k] == const_of(func, Value(k as u32)),
        decreases vals@.len() - v,
    {
        let c = match vals[v].def {
            ValueDef::Inst(i) => match func.insts.at(i) {
                Instruction::Const(imm) => Some(*imm),
                _ => None,
            },
            ValueDef::Param(_) => None,
        };
        r.push(c);
        v = v + 1;
    }
    r
}

fn const_lookup(table: &Vec<Option<Immediate>>, v: Value) -> (r: Option<Immediate>)
    ensures
        r == (if v.0 < table@.len() { table@[v.0 as int] } else { None }),
{
    let i = v.0 as usize;
    if i < table.len() {
        table[i]
    } else {
        None
    }
}

fn fold_arith<F: Fn(FoldOp, Immediate, Immediate) -> Immediate>(
    op: FoldOp,
    x: Immediate,
    y: Immediate,
    fold_float: &F,
) -> (r: Immediate)
    requires
        forall|o: FoldOp, a: Immediate, b: Immediate| call_requires(*fold_float, (o, a, b)),
    ensures
        match arith_folding(op, x, y) {
            Folding::Int(imm) => r == imm,
            Folding::Float(o, a, b) => call_ensures(*fold_float, (o, a, b), r),
            Folding::Keep => false,
        },
{
    match (x, y) {
        (Immediate::F64(_), Immediate::F64(_)) | (Immediate::F32(_), Immediate::F32(_)) => fold_float(op, x, y),
        _ => {
            let a = x.as_i64();
            let b = y.as_i64();
            Immediate::I64(match op {
                FoldOp::Add => a.wrapping_add(b),
                FoldOp::Sub => a.wrapping_sub(b),
                FoldOp::Mul => a.wrapping_mul(b),
            })
        }
    }
}

/// The constant that an instruction folds to, if any.
fn fold_one<F: Fn(FoldOp, Immediate, Immediate) -> Immediate>(
    table: &Vec<Option<Immediate>>,
    inst: &Instruction,
    fold_float: &F,
    Ghost(f): Ghost<&Function>,
) -> (r: Option<Immediate>)
    requires
        forall|o: FoldOp, a: Immediate, b: Immediate| call_requires(*fold_float, (o, a, b)),
        table@.len() == f.values@.len(),
        forall|v: int| 0 <= v < table@.len() ==> #[trigger] table@[v] == const_of(f, Value(v as u32)),
    ensures
        match folding(f, *inst) {
            Folding::Keep => r is None,
            Folding::Int(imm) => r == Some(imm),
            Folding::Float(o, a, b) => r matches Some(c) && call_ensures(*fold_float, (o, a, b), c),
        },
{
    let (op, a, b) = match inst {
        Instruction::Add(a, b) => (FoldOp::Add, *a, *b),
        Instruction::Sub(a, b) => (FoldOp::Sub, *a, *b),
        Instruction::Mul(a, b) => (FoldOp::Mul, *a, *b),
        Instruction::Cmp(c, a, b) => {
            let x = const_lookup(table, *a);
            let y = const_lookup(table, *b);
            proof {
                assert(a.0 < table@.len() ==> table@[a.0 as int] == const_of(f, Value(a.0)));
                assert(b.0 < table@.len() ==> table@[b.0 as int] == const_of(f, Value(b.0)));
            }
            return match (x, y) {
                (Some(x), Some(y)) => Some(Immediate::I64(
                    if eval_comparison(*c, x.as_i64(), y.as_i64()) { 1 } else { 0 },
                )),
                _ => None,
            };
        }
        _ => return None,
    };
    let x = const_lookup(table, a);
    let y = const_lookup(table, b);
    proof {
        assert(a.0 < table@.len() ==> table@[a.0 as int] == const_of(f, Value(a.0)));
        assert(b.0 < table@.len() ==> table@[b.0 as int] == const_of(f, Value(b.0)));
    }
    match (x, y) {
        (Some(x), Some(y)) => Some(fold_arith(op, x, y, fold_float)),
        _ => None,
    }
}

/// Folds every addition, subtraction, multiplication and comparison of two
/// constants into a constant; returns whether any instruction folded.
pub fn constant_fold<F: Fn(FoldOp, Immediate, Immediate) -> Immediate>(func: &mut Function, fold_float: &F) -> (changed: bool)
    requires
        old(func).wf(),
        forall|o: FoldOp, a: Immediate, b: Immediate| call_requires(*fold_float, (o, a, b)),
    ensures
        fold_rel(&*old(func), &*final(func), *fold_float),
        changed == fold_changes(&*old(func)),
{
    let ghost f0 = *func;
    let table = const_table(func);
    let n = func.insts.len();
    let mut changed = false;
    let mut i: usize = 0;
    while i < n
        invariant
            f0.wf(),
            forall|o: FoldOp, a: Immediate, b: Immediate| call_requires(*fold_float, (o, a, b)),
            table@.len() == f0.values@.len(),
            forall|v: int| 0 <= v < table@.len() ==> #[trigger] table@[v] == const_of(&f0, Value(v as u32)),
            n == f0.insts@.len(),
            i <= n,
            same_but_insts(&f0, func),
            func.insts@.len() == n,
            forall|k: int| 0 <= k < i ==> fold_ok(&f0, f0.insts@[k], #[trigger] func.insts@[k], *fold_float),
            forall|k: int| i <= k < n ==> #[trigger] func.insts@[k] == f0.insts@[k],
            changed == exists|k: int| 0 <= k < i && !(folding(&f0, #[trigger] f0.insts@[k]) is Keep),
        decreases n - i,
    {
        let id = Inst(i as u32);
        let folded = fold_one(&table, func.insts.at(id), fold_float, Ghost(&f0));
        match folded {
            Some(imm) => {
                func.insts.replace(id, Instruction::Const(imm));
                changed = true;
            }
            None => {}
        }
        proof {
            if !(folding(&f0, f0.insts@[i as int]) is Keep) {
                assert(exists|k: int| 0 <= k < i + 1 && !(folding(&f0, #[trigger] f0.insts@[k]) is Keep));
            }
            if exists|k: int| 0 <= k < i + 1 && !(folding(&f0, #[trigger] f0.insts@[k]) is Keep) {
                let k = choose|k: int| 0 <= k < i + 1 && !(folding(&f0, #[trigger] f0.insts@[k]) is Keep);
                if k < i {
                    assert(exists|k: int| 0 <= k < i && !(folding(&f0, #[trigger] f0.insts@[k]) is Keep));
                }
            }
        }
        i = i + 1;
    }
    changed
}


// ---------------------------------------------------------------------------
// Common subexpression elimination

/// Each instruction stands in at most one place of at most one block.
pub open spec fn placed_once(f: &Function) -> bool {
    &&& forall|b: int| 0 <= b < f.blocks@.len() ==> (#[trigger] f.blocks@[b]).insts@.no_duplicates()
    &&& forall|b1: int, b2: int, i: Inst| 0 <= b1 < f.blocks@.len() && 0 <= b2 < f.blocks@.len() && b1 != b2
            && #[trigger] f.blocks@[b1].insts@.contains(i) ==> !(#[trigger] f.blocks@[b2].insts@.contains(i))
}

/// The first value whose definition is the instruction.
pub open spec fn first_def(vals: Seq<ValueData>, i: Inst) -> Option<Value>
    decreases vals.len(),
{
    if vals.len() == 0 {
        None
    } else {
        match first_def(vals.drop_last(), i) {
            Some(v) => Some(v),
            None => if vals.last().def == ValueDef::Inst(i) {
                Some(Value((vals.len() - 1) as u32))
            } else {
                None
            },
        }
    }
}

pub proof fn lemma_first_def(vals: Seq<ValueData>, i: Inst)
    requires
        vals.len() <= u32::MAX + 1,
    ensures
        first_def(vals, i) matches Some(v) ==> v.0 < vals.len() && vals[v.0 as int].def == ValueDef::Inst(i),
    decreases vals.len(),
{
    if vals.len() > 0 {
        lemma_first_def(vals.drop_last(), i);
    }
}

/// What common subexpression elimination knows while it walks a block: the
/// replacements found so far (indexed by value), and the instructions of
/// the block seen so far, each with its operands after replacement and the
/// value it defines.
pub type CseState = (Seq<Option<Value>>, Seq<(Instruction, Seq<Value>, Value)>);

/// The value of the first seen instruction of the same shape and operands.
pub open spec fn find_seen(seen: Seq<(Instruction, Seq<Value>, Value)>, inst: Instruction, key: Seq<Value>) -> Option<Value>
    decreases seen.len(),
{
    if seen.len() == 0 {
        None
    } else if same_shape(seen[0].0, inst) && seen[0].1 == key {
        Some(seen[0].2)
    } else {
        find_seen(seen.drop_first(), inst, key)
    }
}

/// One instruction of the walk: an instruction without side effects that
/// defines a value is replaced by an earlier equal one of the block, or is
/// remembered.
pub open spec fn cse_step(f: &Function, st: CseState, id: Inst) -> CseState {
    let inst = f.insts@[id.0 as int];
    if spec_has_side_effects(inst) {
        st
    } else {
        match first_def(f.values@, id) {
            None => st,
            Some(y) => {
                let key = replace_all(st.0, inst.operands());
                match find_seen(st.1, inst, key) {
                    Some(e) => (st.0.update(y.0 as int, Some(e)), st.1),
                    None => (st.0, st.1.push((inst, key, y))),
                }
            }
        }
    }
}

pub open spec fn cse_run(f: &Function, st: CseState, ids: Seq<Inst>) -> CseState
    decreases ids.len(),
{
    if ids.len() == 0 {
        st
    } else {
        cse_step(f, cse_run(f, st, ids.drop_last()), ids.last())
    }
}

pub open spec fn no_remap(n: nat) -> Seq<Option<Value>> {
    Seq::new(n, |i: int| None)
}

/// The replacements after the first `nb` blocks.
pub open spec fn cse_remap_after(f: &Function, nb: int) -> Seq<Option<Value>>
    decreases nb,
{
    if nb <= 0 {
        no_remap(f.values@.len())
    } else {
        cse_run(f, (cse_remap_after(f, nb - 1), seq![]), f.blocks@[nb - 1].insts@).0
    }
}

pub open spec fn cse_remap(f: &Function) -> Seq<Option<Value>> {
    cse_remap_after(f, f.blocks@.len() as int)
}

pub open spec fn cse_changes(f: &Function) -> bool {
    exists|v: int| 0 <= v < cse_remap(f).len() && (#[trigger] cse_remap(f)[v]) is Some
}

/// One pass of common subexpression elimination turns `f` into `g`: when
/// it found replacements, every operand is replaced as they say.
pub open spec fn cse_rel(f: &Function, g: &Function) -> bool {
    &&& same_but_insts(f, g)
    &&& g.insts@.len() == f.insts@.len()
    &&& if cse_changes(f) {
        forall|i: int| 0 <= i < f.insts@.len() ==> rewritten_once(f.insts@[i], #[trigger] g.insts@[i], cse_remap(f))
    } else {
        g.insts@ == f.insts@
    }
}

/// The instruction stands in some block.
pub open spec fn in_blocks(f: &Function, i: Inst) -> bool {
    exists|b: int, k: int| 0 <= b < f.blocks@.len() && 0 <= k < f.blocks@[b].insts@.len()
        && #[trigger] f.blocks@[b].insts@[k] == i
}

/// A replaced value is defined by an instruction without side effects that
/// stands in a block.
pub open spec fn replaced_ok(f: &Function, v: int) -> bool {
    &&& 0 <= v < f.values@.len()
    &&& f.values@[v].def matches ValueDef::Inst(i)
        && i.0 < f.insts@.len() && in_blocks(f, i) && !spec_has_side_effects(f.insts@[i.0 as int])
}

/// The instruction stands at no place at or after `(b, k)`.
pub open spec fn done_with(f: &Function, b: int, k: int, i: Inst) -> bool {
    forall|b2: int, k2: int| 0 <= b2 < f.blocks@.len() && 0 <= k2 < f.blocks@[b2].insts@.len()
        && (b2 > b || (b2 == b && k2 >= k)) ==> #[trigger] f.blocks@[b2].insts@[k2] != i
}

/// A value whose defining instruction the walk has passed.
pub open spec fn owned(f: &Function, b: int, k: int, v: Value) -> bool {
    &&& v.0 < f.values@.len()
    &&& f.values@[v.0 as int].def matches ValueDef::Inst(i) && done_with(f, b, k, i)
}

/// Operands of `a` as they stand in `c` while replacements are found: each
/// is the original or what the table replaces it with.
pub open spec fn ops_tracked(a: Instruction, c: Instruction, remap: Seq<Option<Value>>) -> bool {
    &&& same_shape(a, c)
    &&& c.operands().len() == a.operands().len()
    &&& forall|j: int| 0 <= j < a.operands().len() ==> (#[trigger] c.operands()[j] == a.operands()[j]
        || (a.operands()[j].0 < remap.len() && remap[a.operands()[j].0 as int] == Some(c.operands()[j])))
}

pub proof fn lemma_same_shape(a: Instruction, b: Instruction, c: Instruction)
    ensures
        same_shape(a, a),
        same_shape(a, b) ==> same_shape(b, a),
        same_shape(a, b) && same_shape(b, c) ==> same_shape(a, c),
        same_shape(a, b) ==> spec_has_side_effects(a) == spec_has_side_effects(b),
        same_shape(a, b) ==> a.operands().len() == b.operands().len(),
        same_inst(a, b) ==> same_shape(a, b) && a.operands() == b.operands(),
{
    if same_shape(a, b) {
        match (a, b) {
            (Instruction::Phi(p1), Instruction::Phi(p2)) => {
                assert(a.operands().len() == b.operands().len());
            }
            _ => {}
        }
    }
    if same_shape(a, b) && same_shape(b, c) {
        match (a, b, c) {
            (Instruction::Phi(p1), Instruction::Phi(p2), Instruction::Phi(p3)) => {
                assert forall|k: int| 0 <= k < p1@.len() implies (#[trigger] p1@[k]).0 == p3@[k].0 by {
                    assert(p1@[k].0 == p2@[k].0);
                }
            }
            _ => {}
        }
    }
}

fn first_def_table(func: &Function) -> (r: Vec<Option<Value>>)
    requires
        func.wf(),
    ensures
        r@.len() == func.insts@.len(),
        forall|i: int| 0 <= i < r@.len() ==> #[trigger] r@[i] == first_def(func.values@, Inst(i as u32)),
{
    let n = func.insts.len();
    let mut r: Vec<Option<Value>> = Vec::new();
    let mut i: usize = 0;
    while i < n
        invariant
            n == func.insts@.len(),
            i <= n,
            r@.len() == i,
            forall|k: int| 0 <= k < i ==> #[trigger] r@[k] is None,
        decreases n - i,
    {
        r.push(None);
        i = i + 1;
    }
    let vals = func.values.as_slice();
    let m = vals.len();
    let mut v: usize = 0;
    while v < m
        invariant
            func.wf(),
            n == func.insts@.len(),
            vals@ == func.values@,
            m == vals@.len(),
            v <= m,
            r@.len() == n,
            forall|k: int| 0 <= k < n ==> #[trigger] r@[k] == first_def(func.values@.subrange(0, v as int), Inst(k as u32)),
        decreases m - v,
    {
        let ghost prev = func.values@.subrange(0, v as int);
        let ghost next = func.values@.subrange(0, v as int + 1);
        assert(next.drop_last() =~= prev);
        match vals[v].def {
            ValueDef::Inst(id) => {
                let k = id.0 as usize;
                if r[k].is_none() {
                    r.set(k, Some(Value(v as u32)));
                }
                assert forall|j: int| 0 <= j < n implies #[trigger] r@[j] == first_def(next, Inst(j as u32)) by {
                    if j != k {
                        assert(Inst(j as u32) != id);
                    }
                }
            }
            ValueDef::Param(_) => {}
        }
        v = v + 1;
    }
    assert(func.values@.subrange(0, m as int) =~= func.values@);
    r
}

/// The first seen instruction equal to `inst`.
fn find_in_seen(
    seen: &Vec<(Instruction, Value)>,
    inst: &Instruction,
    Ghost(sseen): Ghost<Seq<(Instruction, Seq<Value>, Value)>>,
    Ghost(orig): Ghost<Instruction>,
) -> (r: Option<Value>)
    requires
        seen@.len() == sseen.len(),
        forall|j: int| 0 <= j < seen@.len() ==> same_shape((#[trigger] seen@[j]).0, sseen[j].0)
            && seen@[j].0.operands() == sseen[j].1 && seen@[j].1 == sseen[j].2,
        same_shape(orig, *inst),
    ensures
        r == find_seen(sseen, orig, inst.operands()),
{
    let mut j: usize = 0;
    assert(sseen.subrange(0, sseen.len() as int) =~= sseen);
    while j < seen.len()
        invariant
            seen@.len() == sseen.len(),
            forall|j: int| 0 <= j < seen@.len() ==> same_shape((#[trigger] seen@[j]).0, sseen[j].0)
                && seen@[j].0.operands() == sseen[j].1 && seen@[j].1 == sseen[j].2,
            same_shape(orig, *inst),
            j <= seen@.len(),
            find_seen(sseen, orig, inst.operands())
                == find_seen(sseen.subrange(j as int, sseen.len() as int), orig, inst.operands()),
        decreases seen@.len() - j,
    {
        let ghost rest = sseen.subrange(j as int, sseen.len() as int);
        assert(rest.drop_first() =~= sseen.subrange(j as int + 1, sseen.len() as int));
        proof {
            lemma_same_shape(seen@[j as int].0, sseen[j as int].0, orig);
            lemma_same_shape(sseen[j as int].0, orig, *inst);
            lemma_same_shape(seen@[j as int].0, orig, *inst);
            lemma_same_shape(sseen[j as int].0, seen@[j as int].0, *inst);
        }
        if inst_eq(&seen[j].0, inst) {
            return Some(seen[j].1);
        }
        j = j + 1;
    }
    None
}

/// Replaces, block by block, each instruction without side effects that
/// equals an earlier one of its block by that earlier one: the value it
/// defines is replaced in every operand of the function. Returns whether
/// any value was replaced.
#[verifier::rlimit(60)]
pub fn common_subexpression_elimination(func: &mut Function) -> (changed: bool)
    requires
        old(func).wf(),
        placed_once(&*old(func)),
    ensures
        cse_rel(&*old(func), &*final(func)),
        changed == cse_changes(&*old(func)),
        cse_remap(&*old(func)).len() == old(func).values@.len(),
        flat(cse_remap(&*old(func))),
        forall|v: int| 0 <= v < cse_remap(&*old(func)).len() && (#[trigger] cse_remap(&*old(func))[v]) is Some
            ==> replaced_ok(&*old(func), v),
{
    let ghost f0 = *func;
    let nv = func.values.len();
    let defs = first_def_table(func);
    let mut remap: Vec<Option<Value>> = Vec::new();
    let mut v: usize = 0;
    while v < nv
        invariant
            v <= nv,
            remap@ == no_remap(v as nat),
        decreases nv - v,
    {
        remap.push(None);
        v = v + 1;
        assert(remap@ =~= no_remap(v as nat));
    }
    let mut changed = false;
    let nb = func.blocks.len();
    let mut b: usize = 0;
    while b < nb
        invariant
            f0.wf(),
            placed_once(&f0),
            nb == f0.blocks@.len(),
            nv == f0.values@.len(),
            defs@.len() == f0.insts@.len(),
            forall|i: int| 0 <= i < defs@.len() ==> #[trigger] defs@[i] == first_def(f0.values@, Inst(i as u32)),
            b <= nb,
            same_but_insts(&f0, func),
            func.insts@.len() == f0.insts@.len(),
            remap@ == cse_remap_after(&f0, b as int),
            remap@.len() == nv,
            flat(remap@),
            forall|v: int| 0 <= v < nv && (#[trigger] remap@[v]) is Some ==> owned(&f0, b as int, 0, Value(v as u32))
                && owned(&f0, b as int, 0, remap@[v].unwrap()) && replaced_ok(&f0, v),
            forall|i: int| 0 <= i < f0.insts@.len() ==> ops_tracked(f0.insts@[i], #[trigger] func.insts@[i], remap@),
            changed == exists|v: int| 0 <= v < nv && (#[trigger] remap@[v]) is Some,
            !changed ==> func.insts@ == f0.insts@,
        decreases nb - b,
    {
        let ghost b0_remap = remap@;
        let mut seen: Vec<(Instruction, Value)> = Vec::new();
        let ghost mut sseen: Seq<(Instruction, Seq<Value>, Value)> = seq![];
        let bid = Block(b as u32);
        let nk = func.blocks.at(bid).insts.len();
        let ghost ids = f0.blocks@[b as int].insts@;
        let mut k: usize = 0;
        while k < nk
            invariant
                f0.wf(),
                placed_once(&f0),
                nb == f0.blocks@.len(),
                nv == f0.values@.len(),
                b < nb,
                bid == Block(b as u32),
                ids == f0.blocks@[b as int].insts@,
                nk == ids.len(),
                k <= nk,
                defs@.len() == f0.insts@.len(),
                forall|i: int| 0 <= i < defs@.len() ==> #[trigger] defs@[i] == first_def(f0.values@, Inst(i as u32)),
                same_but_insts(&f0, func),
                func.insts@.len() == f0.insts@.len(),
                (remap@, sseen) == cse_run(&f0, (b0_remap, seq![]), ids.subrange(0, k as int)),
                b0_remap == cse_remap_after(&f0, b as int),
                remap@.len() == nv,
                flat(remap@),
                forall|v: int| 0 <= v < nv && (#[trigger] remap@[v]) is Some ==> owned(&f0, b as int, k as int, Value(v as u32))
                    && owned(&f0, b as int, k as int, remap@[v].unwrap()) && replaced_ok(&f0, v),
                seen@.len() == sseen.len(),
                forall|j: int| 0 <= j < seen@.len() ==> same_shape((#[trigger] seen@[j]).0, sseen[j].0)
                    && seen@[j].0.operands() == sseen[j].1 && seen@[j].1 == sseen[j].2,
                forall|j: int| 0 <= j < sseen.len() ==> owned(&f0, b as int, k as int, (#[trigger] sseen[j]).2)
                    && remap@[sseen[j].2.0 as int] is None,
                forall|i: int| 0 <= i < f0.insts@.len() ==> ops_tracked(f0.insts@[i], #[trigger] func.insts@[i], remap@),
                changed == exists|v: int| 0 <= v < nv && (#[trigger] remap@[v]) is Some,
                !changed ==> func.insts@ == f0.insts@,
            decreases nk - k,
        {
            let id = func.blocks.at(bid).insts[k];
            assert(id == ids[k as int]);
            let ghost insts0 = func.insts@;
            assert(ids.subrange(0, k as int + 1).drop_last() =~= ids.subrange(0, k as int));
            assert(id.0 < f0.insts@.len());
            let ghost o = f0.insts@[id.0 as int];
            let ghost key = replace_all(remap@, o.operands());
            let mut inst = func.insts.replace(id, Instruction::Ret(None));
            let ghost before = inst;
            proof {
                assert forall|j: int| 0 <= j < before.operands().len() implies
                    chain_ends(remap@, #[trigger] before.operands()[j]) by {
                    lemma_flat_chains(remap@, before.operands()[j]);
                }
            }
            rewrite_operands(&mut inst, &remap);
            proof {
                assert(resolve_all(remap@, before.operands()) =~= replace_all(remap@, before.operands())) by {
                    assert forall|j: int| 0 <= j < before.operands().len() implies
                        resolve_all(remap@, before.operands())[j] == replace_all(remap@, before.operands())[j] by {
                        lemma_flat_chains(remap@, before.operands()[j]);
                    }
                }
                assert(rewritten_once(before, inst, remap@));
            }
            proof {
                lemma_same_shape(o, before, inst);
                lemma_same_shape(before, inst, o);
                lemma_same_shape(o, inst, before);
                assert(ops_tracked(o, before, remap@));
                assert(inst.operands() =~= key) by {
                    assert forall|j: int| 0 <= j < o.operands().len() implies inst.operands()[j] == key[j] by {
                        assert(before.operands()[j] == o.operands()[j]
                            || remap@[o.operands()[j].0 as int] == Some(before.operands()[j]));
                    }
                }
                // the instruction stands at (b, k) and nowhere after
                assert forall|b2: int, k2: int| 0 <= b2 < f0.blocks@.len() && 0 <= k2 < f0.blocks@[b2].insts@.len()
                    && (b2 > b || (b2 == b && k2 >= k + 1)) implies #[trigger] f0.blocks@[b2].insts@[k2] != id by {
                    if b2 == b {
                        assert(f0.blocks@[b as int].insts@.no_duplicates());
                    } else {
                        assert(f0.blocks@[b as int].insts@.contains(id));
                        if f0.blocks@[b2].insts@[k2] == id {
                            assert(f0.blocks@[b2].insts@.contains(id));
                        }
                    }
                }
                assert(in_blocks(&f0, id));
            }
            if !has_side_effects(&inst) {
                let d = defs[id.0 as usize];
                assert(d == first_def(f0.values@, id));
                proof { lemma_first_def(f0.values@, id); }
                match d {
                    Some(y) => {
                        let found = find_in_seen(&seen, &inst, Ghost(sseen), Ghost(o));
                        proof {
                            // y is defined at (b, k), so the walk has not passed it
                            assert(!owned(&f0, b as int, k as int, y));
                        }
                        match found {
                            Some(e) => {
                                proof {
                                    assert(exists|j: int| 0 <= j < sseen.len() && sseen[j].2 == e) by {
                                        lemma_find_seen(sseen, o, key);
                                    }
                                }
                                remap.set(y.0 as usize, Some(e));
                                changed = true;
                                assert(remap@[y.0 as int] is Some);
                            }
                            None => {
                                seen.push((copy_inst(&inst), y));
                                proof {
                                    sseen = sseen.push((o, key, y));
                                }
                            }
                        }
                    }
                    None => {}
                }
            }
            func.insts.replace(id, inst);
            proof {
                if !changed {
                    assert(replace_all(remap@, before.operands()) =~= before.operands());
                    assert(inst == before);
                    assert(func.insts@ =~= insts0);
                }
            }
            k = k + 1;
        }
        proof {
            assert(ids.subrange(0, nk as int) =~= ids);
        }
        b = b + 1;
    }
    if changed {
        let ghost fin = remap@;
        let n = func.insts.len();
        let mut i: usize = 0;
        while i < n
            invariant
                f0.wf(),
                n == f0.insts@.len(),
                func.insts@.len() == n,
                same_but_insts(&f0, func),
                i <= n,
                remap@ == fin,
                flat(fin),
                fin.len() == f0.values@.len(),
                forall|j: int| 0 <= j < i ==> rewritten_once(f0.insts@[j], #[trigger] func.insts@[j], fin),
                forall|j: int| i <= j < n ==> ops_tracked(f0.insts@[j], #[trigger] func.insts@[j], fin),
            decreases n - i,
        {
            let id = Inst(i as u32);
            assert(ops_tracked(f0.insts@[i as int], func.insts@[i as int], fin));
            let mut inst = func.insts.replace(id, Instruction::Ret(None));
            let ghost before = inst;
            proof {
                assert forall|j: int| 0 <= j < before.operands().len() implies
                    chain_ends(remap@, #[trigger] before.operands()[j]) by {
                    lemma_flat_chains(remap@, before.operands()[j]);
                }
            }
            rewrite_operands(&mut inst, &remap);
            proof {
                assert(resolve_all(remap@, before.operands()) =~= replace_all(remap@, before.operands())) by {
                    assert forall|j: int| 0 <= j < before.operands().len() implies
                        resolve_all(remap@, before.operands())[j] == replace_all(remap@, before.operands())[j] by {
                        lemma_flat_chains(remap@, before.operands()[j]);
                    }
                }
                assert(rewritten_once(before, inst, remap@));
            }
            proof {
                let o = f0.insts@[i as int];
                lemma_same_shape(o, before, inst);
                assert(inst.operands() =~= replace_all(fin, o.operands())) by {
                    assert forall|j: int| 0 <= j < o.operands().len() implies inst.operands()[j] == replace_all(fin, o.operands())[j] by {
                        assert(before.operands()[j] == o.operands()[j]
                            || fin[o.operands()[j].0 as int] == Some(before.operands()[j]));
                    }
                }
            }
            func.insts.replace(id, inst);
            i = i + 1;
        }
    }
    changed
}

proof fn lemma_find_seen(seen: Seq<(Instruction, Seq<Value>, Value)>, inst: Instruction, key: Seq<Value>)
    ensures
        find_seen(seen, inst, key) matches Some(e) ==> exists|j: int| 0 <= j < seen.len() && seen[j].2 == e,
    decreases seen.len(),
{
    if seen.len() > 0 && !(same_shape(seen[0].0, inst) && seen[0].1 == key) {
        lemma_find_seen(seen.drop_first(), inst, key);
        match find_seen(seen, inst, key) {
            Some(e) => {
                let j = choose|j: int| 0 <= j < seen.drop_first().len() && seen.drop_first()[j].2 == e;
                assert(seen[j + 1].2 == e);
            }
            None => {}
        }
    }
}


// ---------------------------------------------------------------------------
// Dead code elimination

/// Some instruction of the list reads the value.
pub open spec fn used_in(insts: Seq<Instruction>, v: Value) -> bool
    decreases insts.len(),
{
    insts.len() > 0 && (used_in(insts.drop_last(), v) || insts.last().operands().contains(v))
}

/// An instruction stays in its block when it has side effects or when the
/// value it defines is read somewhere in the function.
pub open spec fn keeps(f: Function, i: Inst) -> bool {
    ||| spec_has_side_effects(f.insts@[i.0 as int])
    ||| (inst_result(f.values@, i) matches Some(v) && used_in(f.insts@, v))
}

pub open spec fn keep_pred(f: Function) -> spec_fn(Inst) -> bool {
    |i: Inst| keeps(f, i)
}

/// The fields of a function that a pass leaves alone when it changes only
/// the blocks.
pub open spec fn same_but_blocks(f: &Function, g: &Function) -> bool {
    &&& g.name == f.name
    &&& g.params == f.params
    &&& g.return_type == f.return_type
    &&& g.insts == f.insts
    &&& g.values == f.values
    &&& g.entry_block == f.entry_block
}

/// One pass of dead code elimination turns `f` into `g`: each block keeps
/// the instructions that `keeps` keeps, in order.
pub open spec fn dce_rel(f: &Function, g: &Function) -> bool {
    &&& same_but_blocks(f, g)
    &&& g.blocks@.len() == f.blocks@.len()
    &&& forall|b: int| 0 <= b < f.blocks@.len() ==> (#[trigger] g.blocks@[b]).name@ == f.blocks@[b].name@
        && g.blocks@[b].insts@ == f.blocks@[b].insts@.filter(keep_pred(*f))
}

/// Some block loses an instruction.
pub open spec fn dce_changes(f: &Function) -> bool {
    exists|b: int| 0 <= b < f.blocks@.len()
        && (#[trigger] f.blocks@[b]).insts@.filter(keep_pred(*f)).len() < f.blocks@[b].insts@.len()
}

/// For each value, whether an instruction of the function reads it.
fn used_table(func: &Function) -> (r: Vec<bool>)
    requires
        func.wf(),
    ensures
        r@.len() == func.values@.len(),
        forall|v: int| 0 <= v < r@.len() ==> #[trigger] r@[v] == used_in(func.insts@, Value(v as u32)),
{
    let nv = func.values.len();
    let mut r: Vec<bool> = Vec::new();
    let mut v: usize = 0;
    while v < nv
        invariant
            nv == func.values@.len(),
            v <= nv,
            r@.len() == v,
            forall|k: int| 0 <= k < v ==> !(#[trigger] r@[k]),
        decreases nv - v,
    {
        r.push(false);
        v = v + 1;
    }
    let insts = func.insts.as_slice();
    let n = insts.len();
    let mut i: usize = 0;
    while i < n
        invariant
            nv == func.values@.len(),
            nv <= u32::MAX,
            insts@ == func.insts@,
            n == insts@.len(),
            i <= n,
            r@.len() == nv,
            forall|k: int| 0 <= k < nv ==> #[trigger] r@[k] == used_in(insts@.subrange(0, i as int), Value(k as u32)),
        decreases n - i,
    {
        let ghost prev = insts@.subrange(0, i as int);
        let ghost next = insts@.subrange(0, i as int + 1);
        assert(next.drop_last() =~= prev);
        let ops = get_operands(&insts[i]);
        let mut j: usize = 0;
        while j < ops.len()
            invariant
                nv == func.values@.len(),
                nv <= u32::MAX,
                r@.len() == nv,
                ops@ == insts@[i as int].operands(),
                j <= ops@.len(),
                forall|k: int| 0 <= k < nv ==> #[trigger] r@[k] == (used_in(prev, Value(k as u32))
                    || ops@.subrange(0, j as int).contains(Value(k as u32))),
            decreases ops@.len() - j,
        {
            let o = ops[j];
            if (o.0 as usize) < nv {
                r.set(o.0 as usize, true);
            }
            assert forall|k: int| 0 <= k < nv implies #[trigger] r@[k] == (used_in(prev, Value(k as u32))
                || ops@.subrange(0, j as int + 1).contains(Value(k as u32))) by {
                let w = Value(k as u32);
                if ops@.subrange(0, j as int + 1).contains(w) && !ops@.subrange(0, j as int).contains(w) {
                    let t = choose|t: int| 0 <= t < j + 1 && #[trigger] ops@.subrange(0, j as int + 1)[t] == w;
                    if t < j {
                        assert(ops@.subrange(0, j as int)[t] == w);
                    }
                }
                if ops@.subrange(0, j as int).contains(w) {
                    let t = choose|t: int| 0 <= t < j && #[trigger] ops@.subrange(0, j as int)[t] == w;
                    assert(ops@.subrange(0, j as int + 1)[t] == w);
                }
                if k == o.0 {
                    assert(ops@.subrange(0, j as int + 1)[j as int] == w);
                }
            }
            j = j + 1;
        }
        assert(ops@.subrange(0, ops@.len() as int) =~= ops@);
        assert(next.last() == insts@[i as int]);
        i = i + 1;
    }
    assert(insts@.subrange(0, n as int) =~= insts@);
    r
}

/// Removes from each block the instructions without side effects whose
/// value nothing reads (or that define no value); returns whether a block
/// lost an instruction.
pub fn dead_code_elimination(func: &mut Function) -> (changed: bool)
    requires
        old(func).wf(),
    ensures
        dce_rel(&*old(func), &*final(func)),
        changed == dce_changes(&*old(func)),
{
    let ghost f0 = *func;
    let used = used_table(func);
    let results = crate::printer::result_table(func);
    let nb = func.blocks.len();
    let mut changed = false;
    let mut b: usize = 0;
    while b < nb
        invariant
            f0.wf(),
            nb == f0.blocks@.len(),
            b <= nb,
            same_but_blocks(&f0, func),
            func.blocks@.len() == nb,
            used@.len() == f0.values@.len(),
            forall|v: int| 0 <= v < used@.len() ==> #[trigger] used@[v] == used_in(f0.insts@, Value(v as u32)),
            results@.len() == f0.insts@.len(),
            forall|i: int| 0 <= i < results@.len() ==> #[trigger] results@[i] == inst_result(f0.values@, Inst(i as u32)),
            forall|c: int| 0 <= c < b ==> (#[trigger] func.blocks@[c]).name@ == f0.blocks@[c].name@
                && func.blocks@[c].insts@ == f0.blocks@[c].insts@.filter(keep_pred(f0)),
            forall|c: int| b <= c < nb ==> #[trigger] func.blocks@[c] == f0.blocks@[c],
            changed == exists|c: int| 0 <= c < b
                && (#[trigger] f0.blocks@[c]).insts@.filter(keep_pred(f0)).len() < f0.blocks@[c].insts@.len(),
        decreases nb - b,
    {
        let bid = Block(b as u32);
        let ghost ids = f0.blocks@[b as int].insts@;
        let nk = func.blocks.at(bid).insts.len();
        let mut kept: Vec<Inst> = Vec::new();
        let mut k: usize = 0;
        while k < nk
            invariant
                f0.wf(),
                nb == f0.blocks@.len(),
                b < nb,
                bid == Block(b as u32),
                func.blocks@[b as int] == f0.blocks@[b as int],
                func.insts@ == f0.insts@,
                func.blocks@.len() == nb,
                ids == f0.blocks@[b as int].insts@,
                nk == ids.len(),
                k <= nk,
                used@.len() == f0.values@.len(),
                forall|v: int| 0 <= v < used@.len() ==> #[trigger] used@[v] == used_in(f0.insts@, Value(v as u32)),
                results@.len() == f0.insts@.len(),
                forall|i: int| 0 <= i < results@.len() ==> #[trigger] results@[i] == inst_result(f0.values@, Inst(i as u32)),
                kept@ == ids.subrange(0, k as int).filter(keep_pred(f0)),
            decreases nk - k,
        {
            let id = func.blocks.at(bid).insts[k];
            assert(id == ids[k as int]);
            assert(id.0 < f0.insts@.len());
            let keep = if has_side_effects(func.insts.at(id)) {
                true
            } else {
                match results[id.0 as usize] {
                    Some(v) => {
                        proof { lemma_inst_result(f0.values@, id); }
                        used[v.0 as usize]
                    }
                    None => false,
                }
            };
            assert(keep == keeps(f0, id));
            proof {
                reveal(Seq::filter);
                assert(ids.subrange(0, k as int + 1).drop_last() =~= ids.subrange(0, k as int));
            }
            if keep {
                kept.push(id);
            }
            k = k + 1;
        }
        assert(ids.subrange(0, nk as int) =~= ids);
        proof {
            ids.lemma_filter_len(keep_pred(f0));
        }
        if kept.len() < nk {
            let name = func.blocks.at(bid).name.clone();
            func.blocks.replace(bid, BlockData { name, insts: kept });
            changed = true;
        } else {
            proof {
                lemma_filter_all(ids, keep_pred(f0));
            }
        }
        proof {
            if exists|c: int| 0 <= c < b + 1
                && (#[trigger] f0.blocks@[c]).insts@.filter(keep_pred(f0)).len() < f0.blocks@[c].insts@.len() {
                let c = choose|c: int| 0 <= c < b + 1
                    && (#[trigger] f0.blocks@[c]).insts@.filter(keep_pred(f0)).len() < f0.blocks@[c].insts@.len();
                if c < b {
                    assert(exists|c: int| 0 <= c < b
                        && (#[trigger] f0.blocks@[c]).insts@.filter(keep_pred(f0)).len() < f0.blocks@[c].insts@.len());
                }
            }
        }
        b = b + 1;
    }
    changed
}

/// A filter that keeps as many elements as the sequence has keeps it whole.
pub proof fn lemma_filter_all<A>(s: Seq<A>, p: spec_fn(A) -> bool)
    requires
        s.filter(p).len() >= s.len(),
    ensures
        s.filter(p) == s,
    decreases s.len(),
{
    reveal(Seq::filter);
    if s.len() > 0 {
        s.drop_last().lemma_filter_len(p);
        if !p(s.last()) {
            assert(false);
        }
        lemma_filter_all(s.drop_last(), p);
        assert(s.drop_last().push(s.last()) =~= s);
    }
}


// ---------------------------------------------------------------------------
// The passes together

/// Each instruction defines at most one value.
pub open spec fn unique_defs(f: &Function) -> bool {
    forall|v1: int, v2: int| 0 <= v1 < f.values@.len() && 0 <= v2 < f.values@.len() && v1 != v2
        && (#[trigger] f.values@[v1]).def is Inst ==> f.values@[v1].def != (#[trigger] f.values@[v2]).def
}

/// `g` holds what `f` holds.
pub open spec fn same_function(f: Function, g: Function) -> bool {
    &&& g.name@ == f.name@
    &&& g.params@.len() == f.params@.len()
    &&& forall|p: int| 0 <= p < f.params@.len() ==> (#[trigger] g.params@[p]).0@ == f.params@[p].0@
        && g.params@[p].1 == f.params@[p].1 && g.params@[p].2 == f.params@[p].2
    &&& g.return_type == f.return_type
    &&& g.blocks@.len() == f.blocks@.len()
    &&& forall|b: int| 0 <= b < f.blocks@.len() ==> (#[trigger] g.blocks@[b]).name@ == f.blocks@[b].name@
        && g.blocks@[b].insts@ == f.blocks@[b].insts@
    &&& g.insts@.len() == f.insts@.len()
    &&& forall|i: int| 0 <= i < f.insts@.len() ==> same_inst(#[trigger] g.insts@[i], f.insts@[i])
    &&& g.values@.len() == f.values@.len()
    &&& forall|v: int| 0 <= v < f.values@.len() ==> (#[trigger] g.values@[v]).ty == f.values@[v].ty
        && g.values@[v].def == f.values@[v].def
        && (g.values@[v].name is Some <==> f.values@[v].name is Some)
        && (g.values@[v].name is Some ==> g.values@[v].name.unwrap()@ == f.values@[v].name.unwrap()@)
    &&& g.entry_block == f.entry_block
}

/// One round: folding, then elimination of common subexpressions, then of
/// dead code.
pub open spec fn round<F: Fn(FoldOp, Immediate, Immediate) -> Immediate>(
    f: &Function,
    f1: &Function,
    f2: &Function,
    g: &Function,
    fold_float: F,
) -> bool {
    fold_rel(f, f1, fold_float) && cse_rel(f1, f2) && dce_rel(f2, g)
}

pub open spec fn round_changes(f: &Function, f1: &Function, f2: &Function) -> bool {
    fold_changes(f) || cse_changes(f1) || dce_changes(f2)
}

/// Rounds from `fs[0]` on: each round but the last changes something, and
/// the last changes nothing.
pub open spec fn optimization_run<F: Fn(FoldOp, Immediate, Immediate) -> Immediate>(
    fs: Seq<Function>,
    f1s: Seq<Function>,
    f2s: Seq<Function>,
    fold_float: F,
) -> bool {
    &&& fs.len() >= 2
    &&& f1s.len() == fs.len() - 1
    &&& f2s.len() == fs.len() - 1
    &&& forall|k: int| 0 <= k < fs.len() - 1 ==> #[trigger] round(&fs[k], &f1s[k], &f2s[k], &fs[k + 1], fold_float)
    &&& forall|k: int| 0 <= k < fs.len() - 2 ==> #[trigger] round_changes(&fs[k], &f1s[k], &f2s[k])
    &&& !round_changes(&fs[fs.len() - 2], &f1s[fs.len() - 2], &f2s[fs.len() - 2])
}

/// `b` is `a` with some of its elements left out, the rest in order.
pub open spec fn kept_from<A>(a: Seq<A>, b: Seq<A>) -> bool {
    exists|p: spec_fn(A) -> bool| #[trigger] a.filter(p) == b
}

proof fn lemma_filter_filter<A>(s: Seq<A>, p: spec_fn(A) -> bool, q: spec_fn(A) -> bool)
    ensures
        s.filter(p).filter(q) == s.filter(|x: A| p(x) && q(x)),
    decreases s.len(),
{
    reveal(Seq::filter);
    if s.len() > 0 {
        lemma_filter_filter(s.drop_last(), p, q);
        let sp = s.drop_last().filter(p);
        if p(s.last()) {
            assert(s.filter(p) == sp.push(s.last()));
            assert(sp.push(s.last()).drop_last() =~= sp);
        } else {
            assert(s.filter(p) == sp);
        }
    }
}

proof fn lemma_same_shape_effects(a: Instruction, b: Instruction)
    requires
        same_shape(a, b),
    ensures
        spec_has_side_effects(a) == spec_has_side_effects(b),
{
}

/// What one round keeps: every field but the instructions and the blocks,
/// the number of instructions, the blocks' names, each block's
/// instructions as a filter of the old ones, and which instructions have
/// side effects, which the filter keeps.
pub open spec fn round_keeps(f: Function, f2: Function, g: Function) -> bool {
    &&& g.name == f.name
    &&& g.params == f.params
    &&& g.return_type == f.return_type
    &&& g.values == f.values
    &&& g.entry_block == f.entry_block
    &&& g.insts@.len() == f.insts@.len()
    &&& g.blocks@.len() == f.blocks@.len()
    &&& forall|b: int| 0 <= b < f.blocks@.len() ==> (#[trigger] g.blocks@[b]).name@ == f.blocks@[b].name@
            && g.blocks@[b].insts@ == f.blocks@[b].insts@.filter(keep_pred(f2))
    &&& forall|x: Inst| x.0 < f.insts@.len() && spec_has_side_effects(f.insts@[x.0 as int])
            ==> spec_has_side_effects(g.insts@[x.0 as int]) && #[trigger] keeps(f2, x)
}

proof fn lemma_round_shape<F: Fn(FoldOp, Immediate, Immediate) -> Immediate>(
    f: &Function,
    f1: &Function,
    f2: &Function,
    g: &Function,
    fold_float: F,
)
    requires
        round(f, f1, f2, g, fold_float),
    ensures
        round_keeps(*f, *f2, *g),
{
    assert forall|x: Inst| x.0 < f.insts@.len() && spec_has_side_effects(f.insts@[x.0 as int])
        implies spec_has_side_effects(g.insts@[x.0 as int]) && #[trigger] keeps(*f2, x) by {
        let i = x.0 as int;
        assert(fold_ok(f, f.insts@[i], f1.insts@[i], fold_float));
        assert(f1.insts@[i] == f.insts@[i]);
        if cse_changes(f1) {
            assert(rewritten_once(f1.insts@[i], f2.insts@[i], cse_remap(f1)));
            lemma_same_shape_effects(f1.insts@[i], f2.insts@[i]);
        }
        assert(spec_has_side_effects(f2.insts@[i]));
    }
}

/// What an optimiser run keeps of the function it starts from: its name,
/// parameters, return type, values and entry block, the number of its
/// instructions and the names of its blocks. Each block keeps some of its
/// instructions, in order, and keeps every instruction with side effects
/// (store, call, jump, branch, return).
pub proof fn lemma_optimizer_keeps<F: Fn(FoldOp, Immediate, Immediate) -> Immediate>(
    fs: Seq<Function>,
    f1s: Seq<Function>,
    f2s: Seq<Function>,
    fold_float: F,
)
    requires
        optimization_run(fs, f1s, f2s, fold_float),
        fs[0].wf(),
    ensures
        fs.last().name == fs[0].name,
        fs.last().params == fs[0].params,
        fs.last().return_type == fs[0].return_type,
        fs.last().values == fs[0].values,
        fs.last().entry_block == fs[0].entry_block,
        fs.last().insts@.len() == fs[0].insts@.len(),
        fs.last().blocks@.len() == fs[0].blocks@.len(),
        forall|b: int| 0 <= b < fs[0].blocks@.len() ==> (#[trigger] fs.last().blocks@[b]).name@ == fs[0].blocks@[b].name@
            && kept_from(fs[0].blocks@[b].insts@, fs.last().blocks@[b].insts@),
        forall|b: int, k: int| 0 <= b < fs[0].blocks@.len() && 0 <= k < fs[0].blocks@[b].insts@.len()
            && spec_has_side_effects(fs[0].insts@[(#[trigger] fs[0].blocks@[b].insts@[k]).0 as int])
            ==> fs.last().blocks@[b].insts@.contains(fs[0].blocks@[b].insts@[k]),
{
    assert forall|k: int| 0 <= k < fs.len() - 1 implies #[trigger] round_keeps(fs[k], f2s[k], fs[k + 1]) by {
        assert(round(&fs[k], &f1s[k], &f2s[k], &fs[k + 1], fold_float));
        lemma_round_shape(&fs[k], &f1s[k], &f2s[k], &fs[k + 1], fold_float);
    }
    lemma_rounds_keep(fs, f2s, fs.len() - 1);
}

proof fn lemma_filter_true<A>(s: Seq<A>)
    ensures
        kept_from(s, s),
        s.filter(|x: A| true) == s,
    decreases s.len(),
{
    reveal(Seq::filter);
    if s.len() > 0 {
        lemma_filter_true(s.drop_last());
        assert(s.drop_last().push(s.last()) =~= s);
    }
    assert(s.filter(|x: A| true) == s);
}

proof fn lemma_rounds_keep(fs: Seq<Function>, f2s: Seq<Function>, n: int)
    requires
        fs[0].wf(),
        0 <= n < fs.len(),
        f2s.len() == fs.len() - 1,
        forall|k: int| 0 <= k < fs.len() - 1 ==> #[trigger] round_keeps(fs[k], f2s[k], fs[k + 1]),
    ensures
        fs[n].name == fs[0].name,
        fs[n].params == fs[0].params,
        fs[n].return_type == fs[0].return_type,
        fs[n].values == fs[0].values,
        fs[n].entry_block == fs[0].entry_block,
        fs[n].insts@.len() == fs[0].insts@.len(),
        fs[n].blocks@.len() == fs[0].blocks@.len(),
        forall|b: int| 0 <= b < fs[0].blocks@.len() ==> (#[trigger] fs[n].blocks@[b]).name@ == fs[0].blocks@[b].name@
            && kept_from(fs[0].blocks@[b].insts@, fs[n].blocks@[b].insts@),
        forall|x: Inst| x.0 < fs[0].insts@.len() && #[trigger] spec_has_side_effects(fs[0].insts@[x.0 as int])
            ==> spec_has_side_effects(fs[n].insts@[x.0 as int]),
        forall|b: int, k: int| 0 <= b < fs[0].blocks@.len() && 0 <= k < fs[0].blocks@[b].insts@.len()
            && spec_has_side_effects(fs[0].insts@[(#[trigger] fs[0].blocks@[b].insts@[k]).0 as int])
            ==> fs[n].blocks@[b].insts@.contains(fs[0].blocks@[b].insts@[k]),
    decreases n,
{
    let f0 = fs[0];
    if n == 0 {
        assert forall|b: int| 0 <= b < f0.blocks@.len() implies
            kept_from(f0.blocks@[b].insts@, fs[n].blocks@[b].insts@) by {
            lemma_filter_true(f0.blocks@[b].insts@);
        }
        assert forall|b: int, k: int| 0 <= b < f0.blocks@.len() && 0 <= k < f0.blocks@[b].insts@.len()
            && spec_has_side_effects(f0.insts@[(#[trigger] f0.blocks@[b].insts@[k]).0 as int])
            implies fs[n].blocks@[b].insts@.contains(f0.blocks@[b].insts@[k]) by {
            assert(fs[n].blocks@[b].insts@[k] == f0.blocks@[b].insts@[k]);
        }
    } else {
        lemma_rounds_keep(fs, f2s, n - 1);
        let f = fs[n - 1];
        let f2 = f2s[n - 1];
        let g = fs[n];
        let k = n - 1;
        assert(round_keeps(fs[k], f2s[k], fs[k + 1]));
        assert(k + 1 == n);
        assert forall|b: int| 0 <= b < f0.blocks@.len() implies
            kept_from(f0.blocks@[b].insts@, #[trigger] g.blocks@[b].insts@) by {
            let s0 = f0.blocks@[b].insts@;
            assert(kept_from(s0, f.blocks@[b].insts@));
            let p = choose|p: spec_fn(Inst) -> bool| #[trigger] s0.filter(p) == f.blocks@[b].insts@;
            let q = keep_pred(f2);
            lemma_filter_filter(s0, p, q);
            assert(g.blocks@[b].insts@ == f.blocks@[b].insts@.filter(q));
            assert(s0.filter(|x: Inst| p(x) && q(x)) == g.blocks@[b].insts@);
        }
        assert forall|x: Inst| x.0 < f0.insts@.len() && #[trigger] spec_has_side_effects(f0.insts@[x.0 as int])
            implies spec_has_side_effects(g.insts@[x.0 as int]) by {
            assert(spec_has_side_effects(f.insts@[x.0 as int]));
            assert(keeps(f2, x));
        }
        assert forall|b: int, k: int| 0 <= b < f0.blocks@.len() && 0 <= k < f0.blocks@[b].insts@.len()
            && spec_has_side_effects(f0.insts@[(#[trigger] f0.blocks@[b].insts@[k]).0 as int])
            implies g.blocks@[b].insts@.contains(f0.blocks@[b].insts@[k]) by {
            let i = f0.blocks@[b].insts@[k];
            assert(i.0 < f0.insts@.len());
            assert(f.blocks@[b].insts@.contains(i));
            let j = choose|j: int| 0 <= j < f.blocks@[b].insts@.len() && f.blocks@[b].insts@[j] == i;
            assert(spec_has_side_effects(f.insts@[i.0 as int]));
            assert(keeps(f2, i));
            f.blocks@[b].insts@.lemma_filter_contains(keep_pred(f2), j);
        }
    }
}

pub open spec fn non_const_count(s: Seq<Instruction>) -> nat
    decreases s.len(),
{
    if s.len() == 0 {
        0
    } else {
        non_const_count(s.drop_last()) + if s.last() is Const { 0nat } else { 1nat }
    }
}

pub open spec fn placed_count(bs: Seq<BlockData>) -> nat
    decreases bs.len(),
{
    if bs.len() == 0 {
        0
    } else {
        placed_count(bs.drop_last()) + bs.last().insts@.len()
    }
}

proof fn lemma_non_const(s1: Seq<Instruction>, s2: Seq<Instruction>)
    requires
        s1.len() == s2.len(),
        forall|i: int| 0 <= i < s1.len() && #[trigger] s1[i] is Const ==> s2[i] is Const,
    ensures
        non_const_count(s2) <= non_const_count(s1),
        (exists|i: int| 0 <= i < s1.len() && !(#[trigger] s1[i] is Const) && s2[i] is Const)
            ==> non_const_count(s2) < non_const_count(s1),
    decreases s1.len(),
{
    if s1.len() > 0 {
        let n = s1.len() - 1;
        assert forall|i: int| 0 <= i < n && #[trigger] s1.drop_last()[i] is Const implies s2.drop_last()[i] is Const by {
            assert(s1[i] is Const);
        }
        lemma_non_const(s1.drop_last(), s2.drop_last());
        if exists|i: int| 0 <= i < s1.len() && !(#[trigger] s1[i] is Const) && s2[i] is Const {
            let i = choose|i: int| 0 <= i < s1.len() && !(#[trigger] s1[i] is Const) && s2[i] is Const;
            if i < n {
                assert(!(s1.drop_last()[i] is Const) && s2.drop_last()[i] is Const);
            }
        }
    }
}

proof fn lemma_placed(b1: Seq<BlockData>, b2: Seq<BlockData>)
    requires
        b1.len() == b2.len(),
        forall|b: int| 0 <= b < b1.len() ==> (#[trigger] b2[b]).insts@.len() <= b1[b].insts@.len(),
    ensures
        placed_count(b2) <= placed_count(b1),
        (exists|b: int| 0 <= b < b1.len() && (#[trigger] b2[b]).insts@.len() < b1[b].insts@.len())
            ==> placed_count(b2) < placed_count(b1),
        (forall|b: int| 0 <= b < b1.len() ==> (#[trigger] b2[b]).insts@.len() == b1[b].insts@.len())
            ==> placed_count(b2) == placed_count(b1),
    decreases b1.len(),
{
    if b1.len() > 0 {
        let n = b1.len() - 1;
        assert forall|b: int| 0 <= b < n implies (#[trigger] b2.drop_last()[b]).insts@.len() <= b1.drop_last()[b].insts@.len() by {
            assert(b2[b].insts@.len() <= b1[b].insts@.len());
        }
        lemma_placed(b1.drop_last(), b2.drop_last());
        if exists|b: int| 0 <= b < b1.len() && (#[trigger] b2[b]).insts@.len() < b1[b].insts@.len() {
            let b = choose|b: int| 0 <= b < b1.len() && (#[trigger] b2[b]).insts@.len() < b1[b].insts@.len();
            if b < n {
                assert(b2.drop_last()[b].insts@.len() < b1.drop_last()[b].insts@.len());
            }
        }
        if forall|b: int| 0 <= b < b1.len() ==> (#[trigger] b2[b]).insts@.len() == b1[b].insts@.len() {
            assert forall|b: int| 0 <= b < n implies (#[trigger] b2.drop_last()[b]).insts@.len() == b1.drop_last()[b].insts@.len() by {
                assert(b2[b].insts@.len() == b1[b].insts@.len());
            }
            assert(b2[n].insts@.len() == b1[n].insts@.len());
        }
    }
}

/// Filtering keeps a sequence free of duplicates.
pub proof fn lemma_filter_no_dup<A>(s: Seq<A>, p: spec_fn(A) -> bool)
    requires
        s.no_duplicates(),
    ensures
        s.filter(p).no_duplicates(),
    decreases s.len(),
{
    reveal(Seq::filter);
    if s.len() > 0 {
        let r = s.drop_last();
        assert(r.no_duplicates());
        lemma_filter_no_dup(r, p);
        if p(s.last()) {
            let fr = r.filter(p);
            if fr.contains(s.last()) {
                r.lemma_filter_contains_rev(p, s.last());
                let j = choose|j: int| 0 <= j < r.len() && r[j] == s.last();
                assert(s[j] == s[s.len() - 1]);
            }
            let t = fr.push(s.last());
            assert forall|i: int, j: int| 0 <= i < t.len() && 0 <= j < t.len() && i != j implies t[i] != t[j] by {
                if i < fr.len() && j < fr.len() {
                } else if i == fr.len() {
                    assert(fr[j] != s.last()) by {
                        if fr[j] == s.last() {
                            assert(fr.contains(s.last()));
                        }
                    }
                } else {
                    assert(fr[i] != s.last()) by {
                        if fr[i] == s.last() {
                            assert(fr.contains(s.last()));
                        }
                    }
                }
            }
        }
    }
}

/// A filter that drops an element is shorter.
pub proof fn lemma_filter_drops<A>(s: Seq<A>, p: spec_fn(A) -> bool, k: int)
    requires
        0 <= k < s.len(),
        !p(s[k]),
    ensures
        s.filter(p).len() < s.len(),
{
    s.lemma_filter_len(p);
    if s.filter(p).len() >= s.len() {
        lemma_filter_all(s, p);
        s.lemma_filter_pred(p, k);
    }
}

/// No instruction of the list reads the value.
proof fn lemma_not_used(insts: Seq<Instruction>, v: Value)
    requires
        forall|i: int, j: int| 0 <= i < insts.len() && 0 <= j < insts[i].operands().len()
            ==> #[trigger] insts[i].operands()[j] != v,
    ensures
        !used_in(insts, v),
    decreases insts.len(),
{
    if insts.len() > 0 {
        let n = insts.len() - 1;
        assert forall|i: int, j: int| 0 <= i < n && 0 <= j < insts.drop_last()[i].operands().len()
            implies #[trigger] insts.drop_last()[i].operands()[j] != v by {
            assert(insts[i].operands()[j] != v);
        }
        lemma_not_used(insts.drop_last(), v);
        if insts.last().operands().contains(v) {
            let j = choose|j: int| 0 <= j < insts.last().operands().len() && insts.last().operands()[j] == v;
            assert(insts[n].operands()[j] != v);
        }
    }
}

/// The last value defined by an instruction exists when some value is.
proof fn lemma_inst_result_some(vals: Seq<ValueData>, i: Inst, v: int)
    requires
        0 <= v < vals.len(),
        vals[v].def == ValueDef::Inst(i),
    ensures
        inst_result(vals, i) is Some,
    decreases vals.len(),
{
    if vals.last().def != ValueDef::Inst(i) {
        assert(v < vals.len() - 1);
        assert(vals.drop_last()[v] == vals[v]);
        lemma_inst_result_some(vals.drop_last(), i, v);
    }
}

/// When elimination of common subexpressions replaces a value, the
/// instruction that defines it is dead afterwards, so dead code elimination
/// removes it.
proof fn lemma_replacement_dies(f1: &Function, f2: &Function)
    requires
        f1.wf(),
        unique_defs(f1),
        cse_rel(f1, f2),
        cse_changes(f1),
        cse_remap(f1).len() == f1.values@.len(),
        flat(cse_remap(f1)),
        forall|v: int| 0 <= v < cse_remap(f1).len() && (#[trigger] cse_remap(f1)[v]) is Some ==> replaced_ok(f1, v),
    ensures
        dce_changes(f2),
{
    let fm = cse_remap(f1);
    let v = choose|v: int| 0 <= v < fm.len() && (#[trigger] fm[v]) is Some;
    assert(replaced_ok(f1, v));
    let i = f1.values@[v].def->Inst_0;
    let (b, k) = choose|b: int, k: int| 0 <= b < f1.blocks@.len() && 0 <= k < f1.blocks@[b].insts@.len()
        && #[trigger] f1.blocks@[b].insts@[k] == i;
    let y = Value(v as u32);
    assert forall|a: int, j: int| 0 <= a < f2.insts@.len() && 0 <= j < f2.insts@[a].operands().len()
        implies #[trigger] f2.insts@[a].operands()[j] != y by {
        assert(rewritten_once(f1.insts@[a], f2.insts@[a], fm));
        let o = f1.insts@[a].operands()[j];
        assert(f2.insts@[a].operands()[j] == replaced(fm, o));
    }
    lemma_not_used(f2.insts@, y);
    lemma_same_shape(f1.insts@[i.0 as int], f2.insts@[i.0 as int], f1.insts@[i.0 as int]);
    lemma_inst_result_some(f2.values@, i, v);
    lemma_inst_result(f2.values@, i);
    let w = inst_result(f2.values@, i)->Some_0;
    assert(w == y);
    assert(!keeps(*f2, i));
    lemma_filter_drops(f2.blocks@[b].insts@, keep_pred(*f2), k);
}

proof fn lemma_same_shape_blocks(a: Instruction, b: Instruction)
    requires
        same_shape(a, b),
    ensures
        crate::parser::inst_blocks(a) == crate::parser::inst_blocks(b),
{
    match (a, b) {
        (Instruction::Phi(p1), Instruction::Phi(p2)) => {
            assert(crate::parser::inst_blocks(a) =~= crate::parser::inst_blocks(b));
        }
        _ => {}
    }
}

/// A copy of a function.
fn duplicate(func: &Function) -> (r: Function)
    requires
        func.wf(),
    ensures
        same_function(*func, r),
{
    let mut params: Vec<(String, Value, crate::types::Type)> = Vec::new();
    let mut i: usize = 0;
    while i < func.params.len()
        invariant
            i <= func.params@.len(),
            params@.len() == i,
            forall|p: int| 0 <= p < i ==> (#[trigger] params@[p]).0@ == func.params@[p].0@
                && params@[p].1 == func.params@[p].1 && params@[p].2 == func.params@[p].2,
        decreases func.params@.len() - i,
    {
        let p = &func.params[i];
        params.push((p.0.clone(), p.1, p.2));
        i = i + 1;
    }
    let mut blocks: Arena<Block, BlockData> = Arena::new();
    let bs = func.blocks.as_slice();
    let mut i: usize = 0;
    while i < bs.len()
        invariant
            func.wf(),
            bs@ == func.blocks@,
            i <= bs@.len(),
            blocks@.len() == i,
            forall|b: int| 0 <= b < i ==> (#[trigger] blocks@[b]).name@ == bs@[b].name@ && blocks@[b].insts@ == bs@[b].insts@,
        decreases bs@.len() - i,
    {
        let bd = &bs[i];
        let mut ids: Vec<Inst> = Vec::new();
        let mut k: usize = 0;
        while k < bd.insts.len()
            invariant
                k <= bd.insts@.len(),
                ids@ == bd.insts@.subrange(0, k as int),
            decreases bd.insts@.len() - k,
        {
            ids.push(bd.insts[k]);
            k = k + 1;
        }
        assert(bd.insts@.subrange(0, bd.insts@.len() as int) =~= bd.insts@);
        blocks.push(BlockData { name: bd.name.clone(), insts: ids });
        i = i + 1;
    }
    let mut insts: Arena<Inst, Instruction> = Arena::new();
    let is = func.insts.as_slice();
    let mut i: usize = 0;
    while i < is.len()
        invariant
            func.wf(),
            is@ == func.insts@,
            i <= is@.len(),
            insts@.len() == i,
            forall|j: int| 0 <= j < i ==> same_inst(#[trigger] insts@[j], is@[j]),
        decreases is@.len() - i,
    {
        insts.push(copy_inst(&is[i]));
        i = i + 1;
    }
    let mut values: Arena<Value, ValueData> = Arena::new();
    let vs = func.values.as_slice();
    let mut i: usize = 0;
    while i < vs.len()
        invariant
            func.wf(),
            vs@ == func.values@,
            i <= vs@.len(),
            values@.len() == i,
            forall|v: int| 0 <= v < i ==> (#[trigger] values@[v]).ty == vs@[v].ty && values@[v].def == vs@[v].def
                && (values@[v].name is Some <==> vs@[v].name is Some)
                && (values@[v].name is Some ==> values@[v].name.unwrap()@ == vs@[v].name.unwrap()@),
        decreases vs@.len() - i,
    {
        let vd = &vs[i];
        let name = match &vd.name {
            Some(n) => Some(n.clone()),
            None => None,
        };
        values.push(ValueData { ty: vd.ty, def: vd.def, name });
        i = i + 1;
    }
    Function {
        name: func.name.clone(),
        params,
        return_type: func.return_type,
        blocks,
        insts,
        values,
        entry_block: func.entry_block,
    }
}

proof fn lemma_same_function(f: Function, g: Function)
    requires
        same_function(f, g),
    ensures
        f.wf() ==> g.wf(),
        placed_once(&f) ==> placed_once(&g),
        unique_defs(&f) ==> unique_defs(&g),
        f.closed() ==> g.closed(),
{
    assert forall|i: int| 0 <= i < f.insts@.len() implies (#[trigger] g.insts@[i]).operands() == f.insts@[i].operands()
        && crate::parser::inst_blocks(g.insts@[i]) == crate::parser::inst_blocks(f.insts@[i]) by {
        lemma_same_shape(g.insts@[i], f.insts@[i], f.insts@[i]);
        lemma_same_shape_blocks(g.insts@[i], f.insts@[i]);
    }
    if placed_once(&f) {
        assert forall|b1: int, b2: int, i: Inst| 0 <= b1 < g.blocks@.len() && 0 <= b2 < g.blocks@.len() && b1 != b2
            && #[trigger] g.blocks@[b1].insts@.contains(i) implies !(#[trigger] g.blocks@[b2].insts@.contains(i)) by {
            assert(g.blocks@[b1].insts@ == f.blocks@[b1].insts@);
            assert(g.blocks@[b2].insts@ == f.blocks@[b2].insts@);
        }
        assert forall|b: int| 0 <= b < g.blocks@.len() implies (#[trigger] g.blocks@[b]).insts@.no_duplicates() by {
            assert(g.blocks@[b].insts@ == f.blocks@[b].insts@);
        }
    }
    if f.closed() {
        assert forall|i: int| 0 <= i < g.insts@.len() implies
            crate::parser::inst_refs_in(#[trigger] g.insts@[i], g.values@.len() as int, g.blocks@.len() as int) by {
            assert(crate::parser::inst_refs_in(f.insts@[i], f.values@.len() as int, f.blocks@.len() as int));
        }
    }
    if f.wf() {
        assert forall|b: int, k: int| 0 <= b < g.blocks@.len() && 0 <= k < g.blocks@[b].insts@.len()
            implies (#[trigger] g.blocks@[b].insts@[k]).0 < g.insts@.len() by {
            assert(g.blocks@[b].insts@ == f.blocks@[b].insts@);
            assert(f.blocks@[b].insts@[k].0 < f.insts@.len());
        }
    }
}

proof fn lemma_fold_step<F: Fn(FoldOp, Immediate, Immediate) -> Immediate>(f0: Function, f1: Function, fold_float: F, closed: bool)
    requires
        f0.wf(),
        placed_once(&f0),
        unique_defs(&f0),
        closed ==> f0.closed(),
        fold_rel(&f0, &f1, fold_float),
    ensures
        f1.wf(),
        placed_once(&f1),
        unique_defs(&f1),
        closed ==> f1.closed(),
        f1.blocks == f0.blocks,
        non_const_count(f1.insts@) <= non_const_count(f0.insts@),
        fold_changes(&f0) ==> non_const_count(f1.insts@) < non_const_count(f0.insts@),
        !fold_changes(&f0) ==> f1.insts@ == f0.insts@,
{
    if closed {
        assert forall|i: int| 0 <= i < f1.insts@.len() implies
            crate::parser::inst_refs_in(#[trigger] f1.insts@[i], f1.values@.len() as int, f1.blocks@.len() as int) by {
            assert(fold_ok(&f0, f0.insts@[i], f1.insts@[i], fold_float));
            assert(crate::parser::inst_refs_in(f0.insts@[i], f0.values@.len() as int, f0.blocks@.len() as int));
        }
    }
    assert forall|i: int| 0 <= i < f0.insts@.len() && #[trigger] f0.insts@[i] is Const implies f1.insts@[i] is Const by {
        assert(fold_ok(&f0, f0.insts@[i], f1.insts@[i], fold_float));
    }
    lemma_non_const(f0.insts@, f1.insts@);
    if fold_changes(&f0) {
        let i = choose|i: int| 0 <= i < f0.insts@.len() && !(folding(&f0, #[trigger] f0.insts@[i]) is Keep);
        assert(fold_ok(&f0, f0.insts@[i], f1.insts@[i], fold_float));
        assert(!(f0.insts@[i] is Const) && f1.insts@[i] is Const);
    } else {
        assert forall|i: int| 0 <= i < f0.insts@.len() implies #[trigger] f1.insts@[i] == f0.insts@[i] by {
            assert(fold_ok(&f0, f0.insts@[i], f1.insts@[i], fold_float));
            assert(folding(&f0, f0.insts@[i]) is Keep);
        }
        assert(f1.insts@ =~= f0.insts@);
    }
}

proof fn lemma_cse_step(f1: Function, f2: Function, closed: bool)
    requires
        f1.wf(),
        placed_once(&f1),
        unique_defs(&f1),
        closed ==> f1.closed(),
        cse_rel(&f1, &f2),
        cse_remap(&f1).len() == f1.values@.len(),
        flat(cse_remap(&f1)),
        forall|v: int| 0 <= v < cse_remap(&f1).len() && (#[trigger] cse_remap(&f1)[v]) is Some ==> replaced_ok(&f1, v),
    ensures
        f2.wf(),
        placed_once(&f2),
        unique_defs(&f2),
        closed ==> f2.closed(),
        f2.blocks == f1.blocks,
        non_const_count(f2.insts@) == non_const_count(f1.insts@),
        cse_changes(&f1) ==> dce_changes(&f2),
{
    assert forall|i: int| 0 <= i < f1.insts@.len() implies (#[trigger] f1.insts@[i] is Const) == (f2.insts@[i] is Const)
        && crate::parser::inst_blocks(f1.insts@[i]) == crate::parser::inst_blocks(f2.insts@[i]) by {
        if cse_changes(&f1) {
            assert(rewritten_once(f1.insts@[i], f2.insts@[i], cse_remap(&f1)));
            lemma_same_shape_blocks(f1.insts@[i], f2.insts@[i]);
        }
    }
    lemma_non_const(f1.insts@, f2.insts@);
    lemma_non_const(f2.insts@, f1.insts@);
    if closed && cse_changes(&f1) {
        assert forall|i: int| 0 <= i < f2.insts@.len() implies
            crate::parser::inst_refs_in(#[trigger] f2.insts@[i], f2.values@.len() as int, f2.blocks@.len() as int) by {
            let fm = cse_remap(&f1);
            assert(rewritten_once(f1.insts@[i], f2.insts@[i], fm));
            assert(crate::parser::inst_refs_in(f1.insts@[i], f1.values@.len() as int, f1.blocks@.len() as int));
            assert forall|j: int| 0 <= j < f2.insts@[i].operands().len() implies
                (#[trigger] f2.insts@[i].operands()[j]).0 < f2.values@.len() by {
                let o = f1.insts@[i].operands()[j];
                assert(f2.insts@[i].operands()[j] == replaced(fm, o));
            }
        }
    }
    if cse_changes(&f1) {
        lemma_replacement_dies(&f1, &f2);
    }
}

proof fn lemma_dce_step(f2: Function, g: Function, closed: bool)
    requires
        f2.wf(),
        placed_once(&f2),
        unique_defs(&f2),
        closed ==> f2.closed(),
        dce_rel(&f2, &g),
    ensures
        g.wf(),
        placed_once(&g),
        unique_defs(&g),
        closed ==> g.closed(),
        g.insts == f2.insts,
        placed_count(g.blocks@) <= placed_count(f2.blocks@),
        dce_changes(&f2) ==> placed_count(g.blocks@) < placed_count(f2.blocks@),
        !dce_changes(&f2) ==> placed_count(g.blocks@) == placed_count(f2.blocks@),
{
    assert forall|b: int| 0 <= b < f2.blocks@.len() implies (#[trigger] g.blocks@[b]).insts@.len() <= f2.blocks@[b].insts@.len() by {
        f2.blocks@[b].insts@.lemma_filter_len(keep_pred(f2));
    }
    lemma_placed(f2.blocks@, g.blocks@);
    if !dce_changes(&f2) {
        assert forall|b: int| 0 <= b < f2.blocks@.len() implies (#[trigger] g.blocks@[b]).insts@.len() == f2.blocks@[b].insts@.len() by {
            f2.blocks@[b].insts@.lemma_filter_len(keep_pred(f2));
            if g.blocks@[b].insts@.len() < f2.blocks@[b].insts@.len() {
                assert(dce_changes(&f2));
            }
        }
    } else {
        let b = choose|b: int| 0 <= b < f2.blocks@.len()
            && (#[trigger] f2.blocks@[b]).insts@.filter(keep_pred(f2)).len() < f2.blocks@[b].insts@.len();
        assert(g.blocks@[b].insts@.len() < f2.blocks@[b].insts@.len());
    }
    assert forall|b: int, k: int| 0 <= b < g.blocks@.len() && 0 <= k < g.blocks@[b].insts@.len()
        implies (#[trigger] g.blocks@[b].insts@[k]).0 < g.insts@.len() by {
        let s = f2.blocks@[b].insts@;
        assert(g.blocks@[b].insts@.contains(g.blocks@[b].insts@[k]));
        s.lemma_filter_contains_rev(keep_pred(f2), g.blocks@[b].insts@[k]);
        let t = choose|t: int| 0 <= t < s.len() && s[t] == g.blocks@[b].insts@[k];
        assert(f2.blocks@[b].insts@[t].0 < f2.insts@.len());
    }
    assert forall|b: int| 0 <= b < g.blocks@.len() implies (#[trigger] g.blocks@[b]).insts@.no_duplicates() by {
        assert(f2.blocks@[b].insts@.no_duplicates());
        lemma_filter_no_dup(f2.blocks@[b].insts@, keep_pred(f2));
    }
    assert forall|b1: int, b2: int, i: Inst| 0 <= b1 < g.blocks@.len() && 0 <= b2 < g.blocks@.len() && b1 != b2
        && #[trigger] g.blocks@[b1].insts@.contains(i) implies !(#[trigger] g.blocks@[b2].insts@.contains(i)) by {
        f2.blocks@[b1].insts@.lemma_filter_contains_rev(keep_pred(f2), i);
        if g.blocks@[b2].insts@.contains(i) {
            f2.blocks@[b2].insts@.lemma_filter_contains_rev(keep_pred(f2), i);
            assert(f2.blocks@[b1].insts@.contains(i));
        }
    }
}

/// Runs constant folding, common subexpression elimination and dead code
/// elimination over a copy of the function, round after round, until a
/// round changes nothing. Where two floating-point constants fold,
/// `fold_float` computes the result from their bit patterns.
pub fn optimize_function<F: Fn(FoldOp, Immediate, Immediate) -> Immediate>(func: &Function, fold_float: &F) -> (r: Function)
    requires
        func.wf(),
        placed_once(func),
        unique_defs(func),
        forall|o: FoldOp, a: Immediate, b: Immediate| call_requires(*fold_float, (o, a, b)),
    ensures
        exists|fs: Seq<Function>, f1s: Seq<Function>, f2s: Seq<Function>|
            #[trigger] optimization_run(fs, f1s, f2s, *fold_float) && same_function(*func, fs[0]) && r == fs.last(),
        r.wf(),
        placed_once(&r),
        unique_defs(&r),
        func.closed() ==> r.closed(),
{
    let mut f = duplicate(func);
    proof { lemma_same_function(*func, f); }
    let ghost f_start = f;
    let ghost mut fs: Seq<Function> = seq![f];
    let ghost mut f1s: Seq<Function> = seq![];
    let ghost mut f2s: Seq<Function> = seq![];
    let mut changed = true;
    while changed
        invariant
            f.wf(),
            placed_once(&f),
            unique_defs(&f),
            func.closed() ==> f.closed(),
            forall|o: FoldOp, a: Immediate, b: Immediate| call_requires(*fold_float, (o, a, b)),
            fs.len() >= 1,
            f1s.len() == fs.len() - 1,
            f2s.len() == fs.len() - 1,
            fs[0] == f_start,
            same_function(*func, f_start),
            fs.last() == f,
            forall|k: int| 0 <= k < fs.len() - 1 ==> #[trigger] round(&fs[k], &f1s[k], &f2s[k], &fs[k + 1], *fold_float),
            forall|k: int| 0 <= k < fs.len() - 2 ==> #[trigger] round_changes(&fs[k], &f1s[k], &f2s[k]),
            fs.len() >= 2 ==> changed == round_changes(&fs[fs.len() - 2], &f1s[fs.len() - 2], &f2s[fs.len() - 2]),
            fs.len() == 1 ==> changed,
        decreases non_const_count(f.insts@), placed_count(f.blocks@), if changed { 1int } else { 0int },
    {
        let ghost f0 = f;
        let c1 = constant_fold(&mut f, fold_float);
        let ghost f1 = f;
        proof { lemma_fold_step(f0, f1, *fold_float, func.closed()); }
        let c2 = common_subexpression_elimination(&mut f);
        let ghost f2 = f;
        proof { lemma_cse_step(f1, f2, func.closed()); }
        let c3 = dead_code_elimination(&mut f);
        proof {
            lemma_dce_step(f2, f, func.closed());
            fs = fs.push(f);
            f1s = f1s.push(f1);
            f2s = f2s.push(f2);
            assert(round(&fs[fs.len() - 2], &f1s[fs.len() - 2], &f2s[fs.len() - 2], &fs[fs.len() - 1], *fold_float));
        }
        changed = c1 || c2 || c3;
        proof {
            if fs.len() >= 3 {
                let k = fs.len() - 3;
                assert(round_changes(&fs[k], &f1s[k], &f2s[k]));
            }
        }
    }
    assert(optimization_run(fs, f1s, f2s, *fold_float));
    f
}

} // verus!
