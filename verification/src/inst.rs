//! Instructions of the IR.
use vstd::prelude::*;
use crate::arena::{Block, Value};
use crate::types::Type;
use crate::text::{owned, str_eq};

verus! {

/// Comparison operators of the comparison instruction.
#[derive(Copy, Clone, PartialEq, Eq, Structural, Hash, Debug)]
pub enum CmpOp {
    Eq,
    Ne,
    Lt,
    Le,
    Gt,
    Ge,
    Ult,
    Ule,
    Ugt,
    Uge,
}

impl CmpOp {
    /// The textual name of the operator.
    pub open spec fn name(self) -> Seq<char> {
        match self {
            CmpOp::Eq => "eq"@,
            CmpOp::Ne => "ne"@,
            CmpOp::Lt => "lt"@,
            CmpOp::Le => "le"@,
            CmpOp::Gt => "gt"@,
            CmpOp::Ge => "ge"@,
            CmpOp::Ult => "ult"@,
            CmpOp::Ule => "ule"@,
            CmpOp::Ugt => "ugt"@,
            CmpOp::Uge => "uge"@,
        }
    }

    /// The textual name of the operator, as the printer writes it.
    pub fn as_str(&self) -> (r: &'static str)
        ensures
            r@ == self.name(),
    {
        match self {
            CmpOp::Eq => "eq",
            CmpOp::Ne => "ne",
            CmpOp::Lt => "lt",
            CmpOp::Le => "le",
            CmpOp::Gt => "gt",
            CmpOp::Ge => "ge",
            CmpOp::Ult => "ult",
            CmpOp::Ule => "ule",
            CmpOp::Ugt => "ugt",
            CmpOp::Uge => "uge",
        }
    }

    pub fn to_string(&self) -> (r: String)
        ensures
            r@ == self.name(),
    {
        owned(self.as_str())
    }

    /// Parses an operator name; the error names the unknown text.
    pub fn from_str(s: &str) -> (r: Result<CmpOp, String>)
        ensures
            r matches Ok(op) ==> op.name() == s@,
            r is Err ==> forall|op: CmpOp| op.name() != s@,
            r matches Err(e) ==> e@ == "Unknown comparison operator: '"@ + s@ + "'"@,
            (forall|op: CmpOp| op.name() != s@) ==> r is Err,
    {
        let all = [CmpOp::Eq, CmpOp::Ne, CmpOp::Lt, CmpOp::Le, CmpOp::Gt, CmpOp::Ge, CmpOp::Ult, CmpOp::Ule, CmpOp::Ugt, CmpOp::Uge];
        let mut i: usize = 0;
        while i < 10
            invariant
                0 <= i <= 10,
                all@ == seq![CmpOp::Eq, CmpOp::Ne, CmpOp::Lt, CmpOp::Le, CmpOp::Gt, CmpOp::Ge, CmpOp::Ult, CmpOp::Ule, CmpOp::Ugt, CmpOp::Uge],
                forall|j: int| 0 <= j < i ==> all@[j].name() != s@,
            decreases 10 - i,
        {
            if str_eq(all[i].as_str(), s) {
                return Ok(all[i]);
            }
            i = i + 1;
        }
        proof {
            assert forall|op: CmpOp| op.name() != s@ by {
                let k: int = match op {
                    CmpOp::Eq => 0,
                    CmpOp::Ne => 1,
                    CmpOp::Lt => 2,
                    CmpOp::Le => 3,
                    CmpOp::Gt => 4,
                    CmpOp::Ge => 5,
                    CmpOp::Ult => 6,
                    CmpOp::Ule => 7,
                    CmpOp::Ugt => 8,
                    CmpOp::Uge => 9,
                };
                assert(all@[k] == op);
            }
        }
        let mut msg = owned("Unknown comparison operator: '");
        crate::text::push_str(&mut msg, s);
        crate::text::push_str(&mut msg, "'");
        Err(msg)
    }
}

spec fn op_of_name(s: Seq<char>) -> CmpOp {
    if s.len() == 2 && s[0] == 'e' {
        CmpOp::Eq
    } else if s.len() == 2 && s[0] == 'n' {
        CmpOp::Ne
    } else if s.len() == 2 && s[0] == 'l' && s[1] == 't' {
        CmpOp::Lt
    } else if s.len() == 2 && s[0] == 'l' {
        CmpOp::Le
    } else if s.len() == 2 && s[1] == 't' {
        CmpOp::Gt
    } else if s.len() == 2 {
        CmpOp::Ge
    } else if s[1] == 'l' && s[2] == 't' {
        CmpOp::Ult
    } else if s[1] == 'l' {
        CmpOp::Ule
    } else if s[2] == 't' {
        CmpOp::Ugt
    } else {
        CmpOp::Uge
    }
}

proof fn lemma_op_of_name(op: CmpOp)
    ensures
        op_of_name(op.name()) == op,
{
    match op {
        CmpOp::Eq => { reveal_strlit("eq"); }
        CmpOp::Ne => { reveal_strlit("ne"); }
        CmpOp::Lt => { reveal_strlit("lt"); }
        CmpOp::Le => { reveal_strlit("le"); }
        CmpOp::Gt => { reveal_strlit("gt"); }
        CmpOp::Ge => { reveal_strlit("ge"); }
        CmpOp::Ult => { reveal_strlit("ult"); }
        CmpOp::Ule => { reveal_strlit("ule"); }
        CmpOp::Ugt => { reveal_strlit("ugt"); }
        CmpOp::Uge => { reveal_strlit("uge"); }
    }
}

/// Names tell comparison operators apart: the name an operator is printed
/// under is read back, by `CmpOp::from_str`, as that operator and no other.
pub proof fn lemma_operator_name_round_trip(op: CmpOp, other: CmpOp)
    requires
        other.name() == op.name(),
    ensures
        other == op,
{
    lemma_op_of_name(op);
    lemma_op_of_name(other);
}

/// Immediate value: an integer or the bit pattern of a floating-point number.
#[derive(Copy, Clone, PartialEq, Eq, Structural, Hash, Debug)]
pub enum Immediate {
    I8(i8),
    I16(i16),
    I32(i32),
    I64(i64),
    U8(u8),
    U16(u16),
    U32(u32),
    U64(u64),
    /// IEEE-754 single-precision bit pattern
    F32(u32),
    /// IEEE-754 double-precision bit pattern
    F64(u64),
}

impl Immediate {
    /// The immediate read as a 64-bit signed integer: signed payloads are
    /// sign-extended, unsigned ones and bit patterns zero-extended, and a
    /// `U64` or `F64` pattern is reinterpreted in two's complement.
    pub open spec fn spec_as_i64(self) -> i64 {
        match self {
            Immediate::I8(v) => v as i64,
            Immediate::I16(v) => v as i64,
            Immediate::I32(v) => v as i64,
            Immediate::I64(v) => v,
            Immediate::U8(v) => v as i64,
            Immediate::U16(v) => v as i64,
            Immediate::U32(v) => v as i64,
            Immediate::U64(v) => v as i64,
            Immediate::F32(v) => v as i64,
            Immediate::F64(v) => v as i64,
        }
    }

    pub fn as_i64(&self) -> (r: i64)
        ensures
            r == self.spec_as_i64(),
    {
        match *self {
            Immediate::I8(v) => v as i64,
            Immediate::I16(v) => v as i64,
            Immediate::I32(v) => v as i64,
            Immediate::I64(v) => v,
            Immediate::U8(v) => v as i64,
            Immediate::U16(v) => v as i64,
            Immediate::U32(v) => v as i64,
            Immediate::U64(v) => v as i64,
            Immediate::F32(v) => v as i64,
            Immediate::F64(v) => v as i64,
        }
    }

    /// True for the floating-point bit patterns.
    pub open spec fn is_float_bits(self) -> bool {
        self is F32 || self is F64
    }
}

/// An SSA instruction.
#[derive(Clone, PartialEq, Eq, Hash, Debug)]
pub enum Instruction {
    /// Constant immediate value (integer or floating-point bit pattern).
    Const(Immediate),
    Add(Value, Value),
    Sub(Value, Value),
    Mul(Value, Value),
    Div(Value, Value),
    Rem(Value, Value),
    Neg(Value),
    Not(Value),
    And(Value, Value),
    Or(Value, Value),
    Xor(Value, Value),
    Shl(Value, Value),
    Shr(Value, Value),
    Sar(Value, Value),
    Cmp(CmpOp, Value, Value),
    Alloca(Type),
    Load(Type, Value, i32),
    Store(Value, Value, i32),
    Jmp(Block),
    Br(Value, Block, Block),
    Ret(Option<Value>),
    Call(String, Vec<Value>),
    /// SSA join: one incoming value per predecessor block.
    Phi(Vec<(Block, Value)>),
}

impl Instruction {
    pub open spec fn spec_is_terminator(&self) -> bool {
        self is Jmp || self is Br || self is Ret
    }

    /// The short opcode name of an instruction.
    pub open spec fn opcode(&self) -> Seq<char> {
        match self {
            Instruction::Const(imm) => if imm.is_float_bits() { "const.float"@ } else { "const.int"@ },
            Instruction::Add(..) => "add"@,
            Instruction::Sub(..) => "sub"@,
            Instruction::Mul(..) => "mul"@,
            Instruction::Div(..) => "div"@,
            Instruction::Rem(..) => "rem"@,
            Instruction::Neg(..) => "neg"@,
            Instruction::Not(..) => "not"@,
            Instruction::And(..) => "and"@,
            Instruction::Or(..) => "or"@,
            Instruction::Xor(..) => "xor"@,
            Instruction::Shl(..) => "shl"@,
            Instruction::Shr(..) => "shr"@,
            Instruction::Sar(..) => "sar"@,
            Instruction::Cmp(..) => "cmp"@,
            Instruction::Alloca(..) => "alloca"@,
            Instruction::Load(..) => "load"@,
            Instruction::Store(..) => "store"@,
            Instruction::Jmp(..) => "jmp"@,
            Instruction::Br(..) => "br"@,
            Instruction::Ret(..) => "ret"@,
            Instruction::Call(..) => "call"@,
            Instruction::Phi(..) => "phi"@,
        }
    }

    /// Returns true if this instruction terminates a basic block (jmp, br, ret).
    pub fn is_terminator(&self) -> (r: bool)
        ensures
            r == self.spec_is_terminator(),
    {
        matches!(self, Instruction::Jmp(_) | Instruction::Br(_, _, _) | Instruction::Ret(_))
    }

    /// Returns the short opcode name of the instruction.
    pub fn opcode_name(&self) -> (r: &'static str)
        ensures
            r@ == self.opcode(),
    {
        match self {
            Instruction::Const(Immediate::F32(_)) => "const.float",
            Instruction::Const(Immediate::F64(_)) => "const.float",
            Instruction::Const(_) => "const.int",
            Instruction::Add(_, _) => "add",
            Instruction::Sub(_, _) => "sub",
            Instruction::Mul(_, _) => "mul",
            Instruction::Div(_, _) => "div",
            Instruction::Rem(_, _) => "rem",
            Instruction::Neg(_) => "neg",
            Instruction::Not(_) => "not",
            Instruction::And(_, _) => "and",
            Instruction::Or(_, _) => "or",
            Instruction::Xor(_, _) => "xor",
            Instruction::Shl(_, _) => "shl",
            Instruction::Shr(_, _) => "shr",
            Instruction::Sar(_, _) => "sar",
            Instruction::Cmp(_, _, _) => "cmp",
            Instruction::Alloca(_) => "alloca",
            Instruction::Load(_, _, _) => "load",
            Instruction::Store(_, _, _) => "store",
            Instruction::Jmp(_) => "jmp",
            Instruction::Br(_, _, _) => "br",
            Instruction::Ret(_) => "ret",
            Instruction::Call(_, _) => "call",
            Instruction::Phi(_) => "phi",
        }
    }

    /// The values an instruction reads, in order (for a phi, the incoming values).
    pub open spec fn operands(&self) -> Seq<Value> {
        match self {
            Instruction::Const(_) | Instruction::Alloca(_) | Instruction::Jmp(_) | Instruction::Ret(None) => seq![],
            Instruction::Neg(v) | Instruction::Not(v) | Instruction::Load(_, v, _) | Instruction::Br(v, _, _) => seq![*v],
            Instruction::Ret(Some(v)) => seq![*v],
            Instruction::Add(a, b) | Instruction::Sub(a, b) | Instruction::Mul(a, b) | Instruction::Div(a, b)
            | Instruction::Rem(a, b) | Instruction::And(a, b) | Instruction::Or(a, b) | Instruction::Xor(a, b)
            | Instruction::Shl(a, b) | Instruction::Shr(a, b) | Instruction::Sar(a, b) | Instruction::Store(a, b, _) => seq![*a, *b],
            Instruction::Cmp(_, a, b) => seq![*a, *b],
            Instruction::Call(_, args) => args@,
            Instruction::Phi(pairs) => pairs@.map_values(|p: (Block, Value)| p.1),
        }
    }
}

/// Two instructions with the same opcode and operands (vectors compared by contents).
pub open spec fn same_inst(a: Instruction, b: Instruction) -> bool {
    match (a, b) {
        (Instruction::Call(n1, a1), Instruction::Call(n2, a2)) => n1 == n2 && a1@ == a2@,
        (Instruction::Phi(p1), Instruction::Phi(p2)) => p1@ == p2@,
        _ => a == b,
    }
}

/// A copy of an instruction.
pub fn copy_inst(inst: &Instruction) -> (r: Instruction)
    ensures
        same_inst(r, *inst),
        r.operands() == inst.operands(),
{
    match inst {
        Instruction::Call(name, args) => {
            let mut v: Vec<Value> = Vec::new();
            let mut i: usize = 0;
            while i < args.len()
                invariant
                    i <= args@.len(),
                    v@ == args@.subrange(0, i as int),
                decreases args@.len() - i,
            {
                v.push(args[i]);
                i = i + 1;
                assert(v@ =~= args@.subrange(0, i as int));
            }
            assert(v@ =~= args@);
            Instruction::Call(name.clone(), v)
        }
        Instruction::Phi(pairs) => {
            let mut v: Vec<(Block, Value)> = Vec::new();
            let mut i: usize = 0;
            while i < pairs.len()
                invariant
                    i <= pairs@.len(),
                    v@ == pairs@.subrange(0, i as int),
                decreases pairs@.len() - i,
            {
                v.push(pairs[i]);
                i = i + 1;
                assert(v@ =~= pairs@.subrange(0, i as int));
            }
            assert(v@ =~= pairs@);
            let r = Instruction::Phi(v);
            assert(r.operands() =~= inst.operands());
            r
        }
        Instruction::Const(x) => Instruction::Const(*x),
        Instruction::Add(a, b) => Instruction::Add(*a, *b),
        Instruction::Sub(a, b) => Instruction::Sub(*a, *b),
        Instruction::Mul(a, b) => Instruction::Mul(*a, *b),
        Instruction::Div(a, b) => Instruction::Div(*a, *b),
        Instruction::Rem(a, b) => Instruction::Rem(*a, *b),
        Instruction::Neg(a) => Instruction::Neg(*a),
        Instruction::Not(a) => Instruction::Not(*a),
        Instruction::And(a, b) => Instruction::And(*a, *b),
        Instruction::Or(a, b) => Instruction::Or(*a, *b),
        Instruction::Xor(a, b) => Instruction::Xor(*a, *b),
        Instruction::Shl(a, b) => Instruction::Shl(*a, *b),
        Instruction::Shr(a, b) => Instruction::Shr(*a, *b),
        Instruction::Sar(a, b) => Instruction::Sar(*a, *b),
        Instruction::Cmp(op, a, b) => Instruction::Cmp(*op, *a, *b),
        Instruction::Alloca(t) => Instruction::Alloca(*t),
        Instruction::Load(t, p, o) => Instruction::Load(*t, *p, *o),
        Instruction::Store(v, p, o) => Instruction::Store(*v, *p, *o),
        Instruction::Jmp(b) => Instruction::Jmp(*b),
        Instruction::Br(c, t, f) => Instruction::Br(*c, *t, *f),
        Instruction::Ret(v) => Instruction::Ret(*v),
    }
}

} // verus!
