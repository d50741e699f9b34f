//! The printer of the textual IR.
use vstd::prelude::*;
use crate::arena::{Block, EntityId, Inst, Value};
use crate::function::{inst_result, lemma_inst_result, Function, ValueDef};
use crate::types::Type;
use crate::inst::{Immediate, Instruction};
use crate::module::{ExternalDecl, Module};
use crate::parser::{inst_blocks, inst_refs_in};
use crate::text::{int_text, nat_digits, owned, push_char, push_i64_text, push_str, push_u64_digits};

verus! {

/// The decimal text of each floating-point bit pattern that a printed
/// function may hold, as Rust's `Display` writes the number. The library
/// holds no floating-point number: the caller supplies these texts.
pub struct FloatText {
    pub f64_text: Vec<(u64, String)>,
    pub f32_text: Vec<(u32, String)>,
}

/// The text that a table gives for a bit pattern: its first entry.
pub open spec fn text_of<T>(entries: Seq<(T, String)>, bits: T) -> Option<Seq<char>>
    decreases entries.len(),
{
    if entries.len() == 0 {
        None
    } else if entries[0].0 == bits {
        Some(entries[0].1@)
    } else {
        text_of(entries.drop_first(), bits)
    }
}

/// A float's text as the IR writes it: `.0` is added when the text has no
/// decimal point and no exponent.
pub open spec fn float_form(s: Seq<char>) -> Seq<char> {
    if s.contains('.') || s.contains('e') || s.contains('E') { s } else { s + ".0"@ }
}

impl FloatText {
    pub fn new() -> (r: Self)
        ensures
            r.f64_text@.len() == 0,
            r.f32_text@.len() == 0,
    {
        FloatText { f64_text: Vec::new(), f32_text: Vec::new() }
    }

    /// The bit patterns of the function's float constants all have a text.
    pub open spec fn covers(&self, inst: Instruction) -> bool {
        &&& (inst matches Instruction::Const(Immediate::F64(b)) ==> text_of(self.f64_text@, b) is Some)
        &&& (inst matches Instruction::Const(Immediate::F32(b)) ==> text_of(self.f32_text@, b) is Some)
    }

    fn text64(&self, bits: u64) -> (r: Option<&String>)
        ensures
            match text_of(self.f64_text@, bits) {
                Some(t) => r matches Some(s) && s@ == t,
                None => r is None,
            },
    {
        let mut i: usize = 0;
        assert(self.f64_text@.subrange(0, self.f64_text@.len() as int) =~= self.f64_text@);
        while i < self.f64_text.len()
            invariant
                i <= self.f64_text@.len(),
                text_of(self.f64_text@, bits) == text_of(self.f64_text@.subrange(i as int, self.f64_text@.len() as int), bits),
            decreases self.f64_text@.len() - i,
        {
            let ghost rest = self.f64_text@.subrange(i as int, self.f64_text@.len() as int);
            assert(rest.drop_first() =~= self.f64_text@.subrange(i as int + 1, self.f64_text@.len() as int));
            if self.f64_text[i].0 == bits {
                return Some(&self.f64_text[i].1);
            }
            i = i + 1;
        }
        None
    }

    fn text32(&self, bits: u32) -> (r: Option<&String>)
        ensures
            match text_of(self.f32_text@, bits) {
                Some(t) => r matches Some(s) && s@ == t,
                None => r is None,
            },
    {
        let mut i: usize = 0;
        assert(self.f32_text@.subrange(0, self.f32_text@.len() as int) =~= self.f32_text@);
        while i < self.f32_text.len()
            invariant
                i <= self.f32_text@.len(),
                text_of(self.f32_text@, bits) == text_of(self.f32_text@.subrange(i as int, self.f32_text@.len() as int), bits),
            decreases self.f32_text@.len() - i,
        {
            let ghost rest = self.f32_text@.subrange(i as int, self.f32_text@.len() as int);
            assert(rest.drop_first() =~= self.f32_text@.subrange(i as int + 1, self.f32_text@.len() as int));
            if self.f32_text[i].0 == bits {
                return Some(&self.f32_text[i].1);
            }
            i = i + 1;
        }
        None
    }
}

fn has_char(s: &String, c: char) -> (r: bool)
    ensures
        r == s@.contains(c),
{
    let t = s.as_str();
    let n = t.unicode_len();
    let mut i: usize = 0;
    while i < n
        invariant
            n == t@.len(),
            t@ == s@,
            i <= n,
            forall|j: int| 0 <= j < i ==> t@[j] != c,
        decreases n - i,
    {
        if t.get_char(i) == c {
            return true;
        }
        i = i + 1;
    }
    false
}

fn push_float_form(out: &mut String, s: &String)
    ensures
        final(out)@ == old(out)@ + float_form(s@),
{
    push_str(out, s.as_str());
    if !(has_char(s, '.') || has_char(s, 'e') || has_char(s, 'E')) {
        push_str(out, ".0");
    }
}

// ---------------------------------------------------------------------------
// The text of functions

/// A value as the IR writes it: `%` and its name, or `%` and its number.
pub open spec fn val_text(f: &Function, v: Value) -> Seq<char> {
    match f.values@[v.0 as int].name {
        Some(n) => seq!['%'] + n@,
        None => seq!['%'] + nat_digits(v.0 as nat),
    }
}

pub open spec fn block_text(f: &Function, b: Block) -> Seq<char> {
    f.blocks@[b.0 as int].name@
}

/// Values separated by `, `.
pub open spec fn vals_text(f: &Function, vs: Seq<Value>) -> Seq<char>
    decreases vs.len(),
{
    if vs.len() == 0 {
        seq![]
    } else if vs.len() == 1 {
        val_text(f, vs[0])
    } else {
        vals_text(f, vs.drop_last()) + ", "@ + val_text(f, vs.last())
    }
}

/// Phi incoming pairs, each `[ %v, block ]`, separated by `, `.
pub open spec fn pairs_text(f: &Function, ps: Seq<(Block, Value)>) -> Seq<char>
    decreases ps.len(),
{
    if ps.len() == 0 {
        seq![]
    } else if ps.len() == 1 {
        pair_text(f, ps[0])
    } else {
        pairs_text(f, ps.drop_last()) + ", "@ + pair_text(f, ps.last())
    }
}

pub open spec fn pair_text(f: &Function, p: (Block, Value)) -> Seq<char> {
    "[ "@ + val_text(f, p.1) + ", "@ + block_text(f, p.0) + " ]"@
}

pub open spec fn binary_text(f: &Function, op: Seq<char>, a: Value, b: Value) -> Seq<char> {
    op + " "@ + val_text(f, a) + ", "@ + val_text(f, b)
}

/// An instruction as the IR writes it, without its result.
pub open spec fn inst_text(f: &Function, inst: Instruction, ft: &FloatText) -> Seq<char> {
    match inst {
        Instruction::Const(Immediate::F32(b)) => "const.float "@ + float_form(text_of(ft.f32_text@, b).unwrap()),
        Instruction::Const(Immediate::F64(b)) => "const.float "@ + float_form(text_of(ft.f64_text@, b).unwrap()),
        Instruction::Const(imm) => "const.int "@ + int_text(imm.spec_as_i64() as int),
        Instruction::Add(a, b) => binary_text(f, "add"@, a, b),
        Instruction::Sub(a, b) => binary_text(f, "sub"@, a, b),
        Instruction::Mul(a, b) => binary_text(f, "mul"@, a, b),
        Instruction::Div(a, b) => binary_text(f, "div"@, a, b),
        Instruction::Rem(a, b) => binary_text(f, "rem"@, a, b),
        Instruction::Neg(a) => "neg "@ + val_text(f, a),
        Instruction::Not(a) => "not "@ + val_text(f, a),
        Instruction::And(a, b) => binary_text(f, "and"@, a, b),
        Instruction::Or(a, b) => binary_text(f, "or"@, a, b),
        Instruction::Xor(a, b) => binary_text(f, "xor"@, a, b),
        Instruction::Shl(a, b) => binary_text(f, "shl"@, a, b),
        Instruction::Shr(a, b) => binary_text(f, "shr"@, a, b),
        Instruction::Sar(a, b) => binary_text(f, "sar"@, a, b),
        Instruction::Cmp(op, a, b) => "cmp "@ + op.name() + " "@ + val_text(f, a) + ", "@ + val_text(f, b),
        Instruction::Alloca(ty) => "alloca "@ + ty.name(),
        Instruction::Load(ty, p, off) => "load "@ + ty.name() + ", "@ + val_text(f, p) + ", "@ + int_text(off as int),
        Instruction::Store(v, p, off) => "store "@ + val_text(f, v) + ", "@ + val_text(f, p) + ", "@ + int_text(off as int),
        Instruction::Jmp(t) => "jmp "@ + block_text(f, t),
        Instruction::Br(c, t, e) => "br "@ + val_text(f, c) + ", "@ + block_text(f, t) + ", "@ + block_text(f, e),
        Instruction::Ret(Some(v)) => "ret "@ + val_text(f, v),
        Instruction::Ret(None) => "ret"@,
        Instruction::Call(name, args) => "call @"@ + name@ + "("@ + vals_text(f, args@) + ")"@,
        Instruction::Phi(pairs) => "phi "@ + pairs_text(f, pairs@),
    }
}

/// What an instruction may print: its references exist and its float constant has a text.
pub open spec fn printable(f: &Function, inst: Instruction, ft: &FloatText) -> bool {
    &&& inst_refs_in(inst, f.values@.len() as int, f.blocks@.len() as int)
    &&& ft.covers(inst)
}

/// Formats a value (`%name`, or `%` and its number when it has no name).
pub fn format_val(func: &Function, val: Value) -> (r: String)
    requires
        val.0 < func.values@.len(),
    ensures
        r@ == val_text(func, val),
{
    let mut s = owned("%");
    match &func.values.at(val).name {
        Some(name) => push_str(&mut s, name.as_str()),
        None => push_u64_digits(&mut s, val.0 as u64),
    }
    proof { reveal_strlit("%"); }
    assert(s@ =~= val_text(func, val));
    s
}

/// Formats a block as its name.
pub fn format_block(func: &Function, block: Block) -> (r: String)
    requires
        block.0 < func.blocks@.len(),
    ensures
        r@ == block_text(func, block),
{
    func.blocks.at(block).name.clone()
}

fn push_val(out: &mut String, func: &Function, val: Value)
    requires
        val.0 < func.values@.len(),
    ensures
        final(out)@ == old(out)@ + val_text(func, val),
{
    let t = format_val(func, val);
    push_str(out, t.as_str());
}

fn push_block(out: &mut String, func: &Function, block: Block)
    requires
        block.0 < func.blocks@.len(),
    ensures
        final(out)@ == old(out)@ + block_text(func, block),
{
    push_str(out, func.blocks.at(block).name.as_str());
}

fn push_binary(out: &mut String, func: &Function, op: &str, a: Value, b: Value)
    requires
        a.0 < func.values@.len(),
        b.0 < func.values@.len(),
    ensures
        final(out)@ == old(out)@ + binary_text(func, op@, a, b),
{
    push_str(out, op);
    push_str(out, " ");
    push_val(out, func, a);
    push_str(out, ", ");
    push_val(out, func, b);
    assert(final(out)@ =~= old(out)@ + binary_text(func, op@, a, b));
}

fn push_vals(out: &mut String, func: &Function, args: &Vec<Value>)
    requires
        forall|k: int| 0 <= k < args@.len() ==> (#[trigger] args@[k]).0 < func.values@.len(),
    ensures
        final(out)@ == old(out)@ + vals_text(func, args@),
{
    let ghost before = out@;
    let mut i: usize = 0;
    while i < args.len()
        invariant
            i <= args@.len(),
            forall|k: int| 0 <= k < args@.len() ==> (#[trigger] args@[k]).0 < func.values@.len(),
            out@ == before + vals_text(func, args@.subrange(0, i as int)),
        decreases args@.len() - i,
    {
        let ghost sub = args@.subrange(0, i as int + 1);
        assert(sub.drop_last() =~= args@.subrange(0, i as int));
        if i > 0 {
            push_str(out, ", ");
        }
        push_val(out, func, args[i]);
        i = i + 1;
        if i == 1 {
            assert(vals_text(func, sub) == val_text(func, args@[0]));
        }
    }
    assert(args@.subrange(0, args@.len() as int) =~= args@);
}

fn push_pairs(out: &mut String, func: &Function, pairs: &Vec<(Block, Value)>)
    requires
        forall|k: int| 0 <= k < pairs@.len() ==> (#[trigger] pairs@[k]).1.0 < func.values@.len()
            && pairs@[k].0.0 < func.blocks@.len(),
    ensures
        final(out)@ == old(out)@ + pairs_text(func, pairs@),
{
    let ghost before = out@;
    let mut i: usize = 0;
    while i < pairs.len()
        invariant
            i <= pairs@.len(),
            forall|k: int| 0 <= k < pairs@.len() ==> (#[trigger] pairs@[k]).1.0 < func.values@.len()
                && pairs@[k].0.0 < func.blocks@.len(),
            out@ == before + pairs_text(func, pairs@.subrange(0, i as int)),
        decreases pairs@.len() - i,
    {
        let ghost sub = pairs@.subrange(0, i as int + 1);
        assert(sub.drop_last() =~= pairs@.subrange(0, i as int));
        let ghost mid = out@;
        if i > 0 {
            push_str(out, ", ");
        }
        push_str(out, "[ ");
        push_val(out, func, pairs[i].1);
        push_str(out, ", ");
        push_block(out, func, pairs[i].0);
        push_str(out, " ]");
        proof {
            reveal_strlit(", ");
            reveal_strlit("[ ");
            reveal_strlit(" ]");
        }
        assert(out@ =~= before + pairs_text(func, sub));
        i = i + 1;
    }
    assert(pairs@.subrange(0, pairs@.len() as int) =~= pairs@);
}

#[verifier::rlimit(50)]
fn push_inst(out: &mut String, func: &Function, inst: &Instruction, ft: &FloatText)
    requires
        printable(func, *inst, ft),
    ensures
        final(out)@ == old(out)@ + inst_text(func, *inst, ft),
{
    let ghost o = old(out)@;
    match inst {
        Instruction::Const(Immediate::F32(bits)) => {
            push_str(out, "const.float ");
            let t = ft.text32(*bits).unwrap();
            push_float_form(out, t);
        }
        Instruction::Const(Immediate::F64(bits)) => {
            push_str(out, "const.float ");
            let t = ft.text64(*bits).unwrap();
            push_float_form(out, t);
        }
        Instruction::Const(imm) => {
            push_str(out, "const.int ");
            push_i64_text(out, imm.as_i64());
        }
        Instruction::Add(a, b) => {
            assert(inst.operands()[0] == *a && inst.operands()[1] == *b);
            push_binary(out, func, "add", *a, *b);
        }
        Instruction::Sub(a, b) => {
            assert(inst.operands()[0] == *a && inst.operands()[1] == *b);
            push_binary(out, func, "sub", *a, *b);
        }
        Instruction::Mul(a, b) => {
            assert(inst.operands()[0] == *a && inst.operands()[1] == *b);
            push_binary(out, func, "mul", *a, *b);
        }
        Instruction::Div(a, b) => {
            assert(inst.operands()[0] == *a && inst.operands()[1] == *b);
            push_binary(out, func, "div", *a, *b);
        }
        Instruction::Rem(a, b) => {
            assert(inst.operands()[0] == *a && inst.operands()[1] == *b);
            push_binary(out, func, "rem", *a, *b);
        }
        Instruction::Neg(a) => {
            assert(inst.operands()[0] == *a);
            push_str(out, "neg ");
            push_val(out, func, *a);
        }
        Instruction::Not(a) => {
            assert(inst.operands()[0] == *a);
            push_str(out, "not ");
            push_val(out, func, *a);
        }
        Instruction::And(a, b) => {
            assert(inst.operands()[0] == *a && inst.operands()[1] == *b);
            push_binary(out, func, "and", *a, *b);
        }
        Instruction::Or(a, b) => {
            assert(inst.operands()[0] == *a && inst.operands()[1] == *b);
            push_binary(out, func, "or", *a, *b);
        }
        Instruction::Xor(a, b) => {
            assert(inst.operands()[0] == *a && inst.operands()[1] == *b);
            push_binary(out, func, "xor", *a, *b);
        }
        Instruction::Shl(a, b) => {
            assert(inst.operands()[0] == *a && inst.operands()[1] == *b);
            push_binary(out, func, "shl", *a, *b);
        }
        Instruction::Shr(a, b) => {
            assert(inst.operands()[0] == *a && inst.operands()[1] == *b);
            push_binary(out, func, "shr", *a, *b);
        }
        Instruction::Sar(a, b) => {
            assert(inst.operands()[0] == *a && inst.operands()[1] == *b);
            push_binary(out, func, "sar", *a, *b);
        }
        Instruction::Cmp(op, a, b) => {
            assert(inst.operands()[0] == *a && inst.operands()[1] == *b);
            push_str(out, "cmp ");
            push_str(out, op.as_str());
            push_str(out, " ");
            push_val(out, func, *a);
            push_str(out, ", ");
            push_val(out, func, *b);
        }
        Instruction::Alloca(ty) => {
            push_str(out, "alloca ");
            push_str(out, ty.as_str());
        }
        Instruction::Load(ty, p, off) => {
            assert(inst.operands()[0] == *p);
            push_str(out, "load ");
            push_str(out, ty.as_str());
            push_str(out, ", ");
            push_val(out, func, *p);
            push_str(out, ", ");
            push_i64_text(out, *off as i64);
        }
        Instruction::Store(v, p, off) => {
            assert(inst.operands()[0] == *v && inst.operands()[1] == *p);
            push_str(out, "store ");
            push_val(out, func, *v);
            push_str(out, ", ");
            push_val(out, func, *p);
            push_str(out, ", ");
            push_i64_text(out, *off as i64);
        }
        Instruction::Jmp(t) => {
            assert(inst_blocks(*inst)[0] == *t);
            push_str(out, "jmp ");
            push_block(out, func, *t);
        }
        Instruction::Br(c, t, e) => {
            assert(inst.operands()[0] == *c);
            assert(inst_blocks(*inst)[0] == *t && inst_blocks(*inst)[1] == *e);
            push_str(out, "br ");
            push_val(out, func, *c);
            push_str(out, ", ");
            push_block(out, func, *t);
            push_str(out, ", ");
            push_block(out, func, *e);
        }
        Instruction::Ret(Some(v)) => {
            assert(inst.operands()[0] == *v);
            push_str(out, "ret ");
            push_val(out, func, *v);
        }
        Instruction::Ret(None) => {
            push_str(out, "ret");
        }
        Instruction::Call(name, args) => {
            assert forall|k: int| 0 <= k < args@.len() implies (#[trigger] args@[k]).0 < func.values@.len() by {
                assert(inst.operands()[k] == args@[k]);
            }
            push_str(out, "call @");
            push_str(out, name.as_str());
            push_str(out, "(");
            push_vals(out, func, args);
            push_str(out, ")");
        }
        Instruction::Phi(pairs) => {
            assert forall|k: int| 0 <= k < pairs@.len() implies (#[trigger] pairs@[k]).1.0 < func.values@.len()
                && pairs@[k].0.0 < func.blocks@.len() by {
                assert(inst.operands()[k] == pairs@[k].1);
                assert(inst_blocks(*inst)[k] == pairs@[k].0);
            }
            push_str(out, "phi ");
            push_pairs(out, func, pairs);
        }
    }
    assert(out@ =~= o + inst_text(func, *inst, ft));
}

/// Formats an instruction without its result value.
pub fn format_inst(func: &Function, inst: &Instruction, floats: &FloatText) -> (r: String)
    requires
        printable(func, *inst, floats),
    ensures
        r@ == inst_text(func, *inst, floats),
{
    let mut s = String::new();
    push_inst(&mut s, func, inst, floats);
    assert(s@ =~= inst_text(func, *inst, floats));
    s
}


// ---------------------------------------------------------------------------
// Functions and modules

/// One line of a block: the result (when the instruction defines a value)
/// and the instruction.
pub open spec fn line_text(f: &Function, i: Inst, ft: &FloatText) -> Seq<char> {
    let inst = f.insts@[i.0 as int];
    match inst_result(f.values@, i) {
        Some(v) => "    "@ + val_text(f, v) + ": "@ + f.values@[v.0 as int].ty.name() + " = "@
            + inst_text(f, inst, ft) + "\n"@,
        None => "    "@ + inst_text(f, inst, ft) + "\n"@,
    }
}

/// The lines of a sequence of instructions.
pub open spec fn lines_text(f: &Function, is: Seq<Inst>, ft: &FloatText) -> Seq<char>
    decreases is.len(),
{
    if is.len() == 0 {
        seq![]
    } else {
        lines_text(f, is.drop_last(), ft) + line_text(f, is.last(), ft)
    }
}

/// The first `n` blocks, separated by blank lines, each its label and lines.
pub open spec fn blocks_text(f: &Function, n: int, ft: &FloatText) -> Seq<char>
    decreases n,
{
    if n <= 0 {
        seq![]
    } else {
        let b = f.blocks@[n - 1];
        blocks_text(f, n - 1, ft) + (if n > 1 { "\n"@ } else { seq![] }) + b.name@ + ":\n"@
            + lines_text(f, b.insts@, ft)
    }
}

/// Parameters, each `%name: type`, separated by `, `.
pub open spec fn params_text(f: &Function, ps: Seq<(String, Value, Type)>) -> Seq<char>
    decreases ps.len(),
{
    if ps.len() == 0 {
        seq![]
    } else {
        let p = ps.last();
        params_text(f, ps.drop_last()) + (if ps.len() > 1 { ", "@ } else { seq![] })
            + val_text(f, p.1) + ": "@ + p.2.name()
    }
}

/// A function as the IR writes it.
pub open spec fn function_text(f: &Function, ft: &FloatText) -> Seq<char> {
    "func @"@ + f.name@ + "("@ + params_text(f, f.params@) + ") -> "@ + f.return_type.name() + " {\n"@
        + blocks_text(f, f.blocks@.len() as int, ft) + "}"@
}

/// Every float constant that a block of the function holds has a text.
pub open spec fn floats_cover(f: &Function, ft: &FloatText) -> bool {
    forall|b: int, k: int| 0 <= b < f.blocks@.len() && 0 <= k < f.blocks@[b].insts@.len()
        ==> ft.covers(f.insts@[(#[trigger] f.blocks@[b].insts@[k]).0 as int])
}

/// Types separated by `, `.
pub open spec fn types_text(ts: Seq<Type>) -> Seq<char>
    decreases ts.len(),
{
    if ts.len() == 0 {
        seq![]
    } else {
        types_text(ts.drop_last()) + (if ts.len() > 1 { ", "@ } else { seq![] }) + ts.last().name()
    }
}

/// An external declaration as the IR writes it.
pub open spec fn extern_text(e: ExternalDecl) -> Seq<char> {
    "extern func @"@ + e.name@ + "("@ + types_text(e.params@) + ") -> "@ + e.return_type.name()
}

/// External declarations separated by line breaks.
pub open spec fn externs_text(es: Seq<ExternalDecl>) -> Seq<char>
    decreases es.len(),
{
    if es.len() == 0 {
        seq![]
    } else {
        externs_text(es.drop_last()) + (if es.len() > 1 { "\n"@ } else { seq![] }) + extern_text(es.last())
    }
}

/// Functions separated by blank lines.
pub open spec fn functions_text(fs: Seq<Function>, ft: &FloatText) -> Seq<char>
    decreases fs.len(),
{
    if fs.len() == 0 {
        seq![]
    } else {
        functions_text(fs.drop_last(), ft) + (if fs.len() > 1 { "\n\n"@ } else { seq![] })
            + function_text(&fs.last(), ft)
    }
}

/// A module as the IR writes it: its external declarations, then its functions.
pub open spec fn module_text(m: &Module, ft: &FloatText) -> Seq<char> {
    externs_text(m.externs@) + (if m.externs@.len() > 0 && m.functions@.len() > 0 { "\n\n"@ } else { seq![] })
        + functions_text(m.functions@, ft)
}

/// For each instruction of the function, the value it defines.
pub(crate) fn result_table(func: &Function) -> (r: Vec<Option<Value>>)
    requires
        func.wf(),
    ensures
        r@.len() == func.insts@.len(),
        forall|i: int| 0 <= i < r@.len() ==> #[trigger] r@[i] == inst_result(func.values@, Inst(i as u32)),
{
    let n = func.insts.len();
    let mut r: Vec<Option<Value>> = Vec::new();
    let mut i: usize = 0;
    while i < n
        invariant
            n == func.insts@.len(),
            i <= n,
            r@.len() == i,
            forall|k: int| 0 <= k < i ==> #[trigger] r@[k] is None,
        decreases n - i,
    {
        r.push(None);
        i = i + 1;
    }
    let vals = func.values.as_slice();
    let m = vals.len();
    let mut v: usize = 0;
    assert forall|k: int| 0 <= k < r@.len() implies #[trigger] r@[k]
        == inst_result(func.values@.subrange(0, 0), Inst(k as u32)) by {}
    while v < m
        invariant
            func.wf(),
            n == func.insts@.len(),
            vals@ == func.values@,
            m == vals@.len(),
            v <= m,
            r@.len() == n,
            forall|k: int| 0 <= k < n ==> #[trigger] r@[k] == inst_result(func.values@.subrange(0, v as int), Inst(k as u32)),
        decreases m - v,
    {
        let ghost prev = func.values@.subrange(0, v as int);
        let ghost next = func.values@.subrange(0, v as int + 1);
        assert(next.drop_last() =~= prev);
        assert(next.last() == func.values@[v as int]);
        match vals[v].def {
            ValueDef::Inst(id) => {
                assert(id.0 < n);
                r.set(id.0 as usize, Some(Value(v as u32)));
                assert forall|k: int| 0 <= k < n implies #[trigger] r@[k] == inst_result(next, Inst(k as u32)) by {
                    if k != id.0 {
                        assert(Inst(k as u32) != id);
                    }
                }
            }
            ValueDef::Param(_) => {}
        }
        v = v + 1;
    }
    assert(func.values@.subrange(0, m as int) =~= func.values@);
    r
}

impl ExternalDecl {
    /// The declaration as the IR writes it.
    pub fn to_string(&self) -> (r: String)
        ensures
            r@ == extern_text(*self),
    {
        let mut s = owned("extern func @");
        push_str(&mut s, self.name.as_str());
        push_str(&mut s, "(");
        let ghost before = s@;
        let mut i: usize = 0;
        while i < self.params.len()
            invariant
                i <= self.params@.len(),
                s@ == before + types_text(self.params@.subrange(0, i as int)),
            decreases self.params@.len() - i,
        {
            let ghost sub = self.params@.subrange(0, i as int + 1);
            assert(sub.drop_last() =~= self.params@.subrange(0, i as int));
            if i > 0 {
                push_str(&mut s, ", ");
            }
            push_str(&mut s, self.params[i].as_str());
            proof { reveal_strlit(", "); }
            assert(s@ =~= before + types_text(sub));
            i = i + 1;
        }
        assert(self.params@.subrange(0, self.params@.len() as int) =~= self.params@);
        push_str(&mut s, ") -> ");
        push_str(&mut s, self.return_type.as_str());
        proof {
            reveal_strlit("extern func @");
        }
        assert(s@ =~= extern_text(*self));
        s
    }
}

fn push_line(out: &mut String, func: &Function, id: Inst, results: &Vec<Option<Value>>, ft: &FloatText)
    requires
        func.closed(),
        id.0 < func.insts@.len(),
        printable(func, func.insts@[id.0 as int], ft),
        results@.len() == func.insts@.len(),
        forall|i: int| 0 <= i < results@.len() ==> #[trigger] results@[i] == inst_result(func.values@, Inst(i as u32)),
    ensures
        final(out)@ == old(out)@ + line_text(func, id, ft),
{
    let ghost o = out@;
    let inst = func.insts.at(id);
    assert(results@[id.0 as int] == inst_result(func.values@, Inst(id.0)));
    push_str(out, "    ");
    match results[id.0 as usize] {
        Some(v) => {
            proof { lemma_inst_result(func.values@, id); }
            push_val(out, func, v);
            push_str(out, ": ");
            push_str(out, func.values.at(v).ty.as_str());
            push_str(out, " = ");
        }
        None => {}
    }
    push_inst(out, func, inst, ft);
    push_str(out, "\n");
    proof {
        reveal_strlit("    ");
        reveal_strlit(": ");
        reveal_strlit(" = ");
        reveal_strlit("\n");
    }
    assert(out@ =~= o + line_text(func, id, ft));
}

impl Function {
    /// The function as the IR writes it: its header, its blocks separated by
    /// blank lines, and a closing brace.
    pub fn to_string(&self, floats: &FloatText) -> (r: String)
        requires
            self.closed(),
            floats_cover(self, floats),
        ensures
            r@ == function_text(self, floats),
    {
        let mut s = owned("func @");
        push_str(&mut s, self.name.as_str());
        push_str(&mut s, "(");
        let ghost before = s@;
        let mut i: usize = 0;
        while i < self.params.len()
            invariant
                self.wf(),
                i <= self.params@.len(),
                s@ == before + params_text(self, self.params@.subrange(0, i as int)),
            decreases self.params@.len() - i,
        {
            let ghost sub = self.params@.subrange(0, i as int + 1);
            assert(sub.drop_last() =~= self.params@.subrange(0, i as int));
            if i > 0 {
                push_str(&mut s, ", ");
            }
            let p = &self.params[i];
            push_val(&mut s, self, p.1);
            push_str(&mut s, ": ");
            push_str(&mut s, p.2.as_str());
            proof { reveal_strlit(", "); reveal_strlit(": "); }
            assert(s@ =~= before + params_text(self, sub));
            i = i + 1;
        }
        assert(self.params@.subrange(0, self.params@.len() as int) =~= self.params@);
        push_str(&mut s, ") -> ");
        push_str(&mut s, self.return_type.as_str());
        push_str(&mut s, " {\n");
        let ghost head = s@;
        let results = result_table(self);
        let blocks = self.blocks.as_slice();
        let nb = blocks.len();
        let mut b: usize = 0;
        while b < nb
            invariant
                self.closed(),
                floats_cover(self, floats),
                blocks@ == self.blocks@,
                nb == blocks@.len(),
                b <= nb,
                results@.len() == self.insts@.len(),
                forall|i: int| 0 <= i < results@.len() ==> #[trigger] results@[i] == inst_result(self.values@, Inst(i as u32)),
                s@ == head + blocks_text(self, b as int, floats),
            decreases nb - b,
        {
            if b > 0 {
                push_str(&mut s, "\n");
            }
            let bd = &blocks[b];
            push_str(&mut s, bd.name.as_str());
            push_str(&mut s, ":\n");
            let ghost mid = s@;
            let mut k: usize = 0;
            while k < bd.insts.len()
                invariant
                    self.closed(),
                    floats_cover(self, floats),
                    b < self.blocks@.len(),
                    *bd == self.blocks@[b as int],
                    k <= bd.insts@.len(),
                    results@.len() == self.insts@.len(),
                    forall|i: int| 0 <= i < results@.len() ==> #[trigger] results@[i] == inst_result(self.values@, Inst(i as u32)),
                    s@ == mid + lines_text(self, bd.insts@.subrange(0, k as int), floats),
                decreases bd.insts@.len() - k,
            {
                let ghost sub = bd.insts@.subrange(0, k as int + 1);
                assert(sub.drop_last() =~= bd.insts@.subrange(0, k as int));
                let id = bd.insts[k];
                assert(self.blocks@[b as int].insts@[k as int] == id);
                assert(id.0 < self.insts@.len());
                assert(floats.covers(self.insts@[id.0 as int]));
                assert(inst_refs_in(self.insts@[id.0 as int], self.values@.len() as int, self.blocks@.len() as int));
                push_line(&mut s, self, id, &results, floats);
                k = k + 1;
            }
            assert(bd.insts@.subrange(0, bd.insts@.len() as int) =~= bd.insts@);
            proof { reveal_strlit("\n"); reveal_strlit(":\n"); }
            assert(s@ =~= head + blocks_text(self, b as int + 1, floats));
            b = b + 1;
        }
        push_str(&mut s, "}");
        proof {
            reveal_strlit("func @");
            reveal_strlit(") -> ");
            reveal_strlit(" {\n");
            reveal_strlit("}");
        }
        assert(s@ =~= function_text(self, floats));
        s
    }
}

impl Module {
    /// The module as the IR writes it: its external declarations, one per
    /// line, then its functions separated by blank lines.
    pub fn to_string(&self, floats: &FloatText) -> (r: String)
        requires
            forall|i: int| 0 <= i < self.functions@.len() ==> (#[trigger] self.functions@[i]).closed()
                && floats_cover(&self.functions@[i], floats),
        ensures
            r@ == module_text(self, floats),
    {
        let mut s = String::new();
        let mut i: usize = 0;
        while i < self.externs.len()
            invariant
                i <= self.externs@.len(),
                s@ == externs_text(self.externs@.subrange(0, i as int)),
            decreases self.externs@.len() - i,
        {
            let ghost sub = self.externs@.subrange(0, i as int + 1);
            assert(sub.drop_last() =~= self.externs@.subrange(0, i as int));
            if i > 0 {
                push_str(&mut s, "\n");
            }
            let t = self.externs[i].to_string();
            push_str(&mut s, t.as_str());
            proof { reveal_strlit("\n"); }
            assert(s@ =~= externs_text(sub));
            i = i + 1;
        }
        assert(self.externs@.subrange(0, self.externs@.len() as int) =~= self.externs@);
        let fs = self.functions.as_slice();
        if self.externs.len() > 0 && fs.len() > 0 {
            push_str(&mut s, "\n\n");
        }
        let ghost head = s@;
        let mut j: usize = 0;
        while j < fs.len()
            invariant
                fs@ == self.functions@,
                j <= fs@.len(),
                forall|i: int| 0 <= i < self.functions@.len() ==> (#[trigger] self.functions@[i]).closed()
                    && floats_cover(&self.functions@[i], floats),
                s@ == head + functions_text(fs@.subrange(0, j as int), floats),
            decreases fs@.len() - j,
        {
            let ghost sub = fs@.subrange(0, j as int + 1);
            assert(sub.drop_last() =~= fs@.subrange(0, j as int));
            if j > 0 {
                push_str(&mut s, "\n\n");
            }
            assert(self.functions@[j as int].closed());
            let t = fs[j].to_string(floats);
            push_str(&mut s, t.as_str());
            proof { reveal_strlit("\n\n"); }
            assert(s@ =~= head + functions_text(sub, floats));
            j = j + 1;
        }
        assert(fs@.subrange(0, fs@.len() as int) =~= fs@);
        proof { reveal_strlit("\n\n"); }
        assert(s@ =~= module_text(self, floats));
        s
    }
}

} // verus!
