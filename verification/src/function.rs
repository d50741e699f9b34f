//! Functions of the IR: parameters, basic blocks, instructions and SSA values.
use vstd::prelude::*;
use crate::arena::{Arena, Block, EntityId, Inst, Value};
use crate::inst::Instruction;
use crate::types::Type;
use crate::text::{owned, str_eq};

verus! {

/// Where an SSA value originated from.
#[derive(Clone, Copy, PartialEq, Eq, Structural, Hash, Debug)]
pub enum ValueDef {
    /// A function parameter (index into `Function::params`).
    Param(usize),
    /// The result of executing an instruction.
    Inst(Inst),
}

/// Metadata for an SSA value in a function.
#[derive(Clone, PartialEq, Eq, Hash, Debug)]
pub struct ValueData {
    pub ty: Type,
    pub def: ValueDef,
    pub name: Option<String>,
}

/// A basic block containing a sequence of instructions.
#[derive(Clone, PartialEq, Eq, Hash, Debug)]
pub struct BlockData {
    pub name: String,
    pub insts: Vec<Inst>,
}

impl BlockData {
    pub fn new(name: &str) -> (r: Self)
        ensures
            r.name@ == name@,
            r.insts@ == Seq::<Inst>::empty(),
    {
        BlockData { name: owned(name), insts: Vec::new() }
    }
}

/// A single function of the IR.
#[derive(Clone, PartialEq, Eq, Hash, Debug)]
pub struct Function {
    pub name: String,
    /// Parameter list: (parameter name, value ID, type).
    pub params: Vec<(String, Value, Type)>,
    pub return_type: Type,
    pub blocks: Arena<Block, BlockData>,
    pub insts: Arena<Inst, Instruction>,
    pub values: Arena<Value, ValueData>,
    pub entry_block: Option<Block>,
}

/// The arenas of a function are small enough for `u32` keys.
pub open spec fn fits(f: &Function) -> bool {
    &&& f.blocks@.len() <= u32::MAX
    &&& f.insts@.len() <= u32::MAX
    &&& f.values@.len() <= u32::MAX
}

impl Function {
    /// Every key that the function holds refers into its arenas.
    pub open spec fn wf(&self) -> bool {
        &&& fits(self)
        &&& (forall|b: int, k: int| 0 <= b < self.blocks@.len() && 0 <= k < self.blocks@[b].insts@.len()
                ==> (#[trigger] self.blocks@[b].insts@[k]).0 < self.insts@.len())
        &&& (forall|v: int| 0 <= v < self.values@.len() ==>
                ((#[trigger] self.values@[v]).def matches ValueDef::Inst(i) ==> i.0 < self.insts@.len()))
        &&& (forall|p: int| 0 <= p < self.params@.len() ==> (#[trigger] self.params@[p]).1.0 < self.values@.len())
        &&& (self.entry_block matches Some(b) ==> b.0 < self.blocks@.len())
    }

    pub fn new(name: &str, return_type: Type) -> (r: Self)
        ensures
            r.name@ == name@,
            r.params@ == Seq::<(String, Value, Type)>::empty(),
            r.return_type == return_type,
            r.blocks@ == Seq::<BlockData>::empty(),
            r.insts@ == Seq::<Instruction>::empty(),
            r.values@ == Seq::<ValueData>::empty(),
            r.entry_block is None,
            r.wf(),
    {
        Function {
            name: owned(name),
            params: Vec::new(),
            return_type,
            blocks: Arena::new(),
            insts: Arena::new(),
            values: Arena::new(),
            entry_block: None,
        }
    }

    /// Adds a parameter, with a new value that it defines.
    pub fn add_param(&mut self, name: &str, ty: Type) -> (val: Value)
        requires
            old(self).values@.len() < u32::MAX,
        ensures
            val.0 == old(self).values@.len(),
            final(self).values@.len() == old(self).values@.len() + 1,
            final(self).values@.drop_last() == old(self).values@,
            final(self).values@.last().ty == ty,
            final(self).values@.last().def == ValueDef::Param(old(self).params@.len() as usize),
            final(self).values@.last().name matches Some(n) && n@ == name@,
            final(self).params@.len() == old(self).params@.len() + 1,
            final(self).params@.drop_last() == old(self).params@,
            final(self).params@.last().0@ == name@,
            final(self).params@.last().1 == val,
            final(self).params@.last().2 == ty,
            final(self).name == old(self).name,
            final(self).return_type == old(self).return_type,
            final(self).blocks@ == old(self).blocks@,
            final(self).insts@ == old(self).insts@,
            final(self).entry_block == old(self).entry_block,
            old(self).wf() ==> final(self).wf(),
    {
        let param_idx = self.params.len();
        let val = self.values.push(ValueData { ty, def: ValueDef::Param(param_idx), name: Some(owned(name)) });
        self.params.push((owned(name), val, ty));
        proof {
            assert(self.values@.drop_last() =~= old(self).values@);
            assert(self.params@.drop_last() =~= old(self).params@);
        }
        val
    }

    /// Adds an empty block; the first block added becomes the entry block.
    pub fn create_block(&mut self, name: &str) -> (block: Block)
        requires
            old(self).blocks@.len() < u32::MAX,
        ensures
            block.0 == old(self).blocks@.len(),
            final(self).blocks@.len() == old(self).blocks@.len() + 1,
            final(self).blocks@.drop_last() == old(self).blocks@,
            final(self).blocks@.last().name@ == name@,
            final(self).blocks@.last().insts@ == Seq::<Inst>::empty(),
            final(self).entry_block == (if old(self).entry_block is None { Some(block) } else { old(self).entry_block }),
            final(self).name == old(self).name,
            final(self).params == old(self).params,
            final(self).return_type == old(self).return_type,
            final(self).insts@ == old(self).insts@,
            final(self).values@ == old(self).values@,
            old(self).wf() ==> final(self).wf(),
    {
        let block = self.blocks.push(BlockData::new(name));
        if self.entry_block.is_none() {
            self.entry_block = Some(block);
        }
        proof {
            assert(self.blocks@.drop_last() =~= old(self).blocks@);
        }
        block
    }

    /// Adds a value defined by `inst`.
    pub fn create_value(&mut self, ty: Type, inst: Inst) -> (val: Value)
        requires
            old(self).values@.len() < u32::MAX,
        ensures
            val.0 == old(self).values@.len(),
            final(self).values@ == old(self).values@.push(ValueData { ty, def: ValueDef::Inst(inst), name: None }),
            final(self).name == old(self).name,
            final(self).params == old(self).params,
            final(self).return_type == old(self).return_type,
            final(self).blocks@ == old(self).blocks@,
            final(self).insts@ == old(self).insts@,
            final(self).entry_block == old(self).entry_block,
            old(self).wf() && inst.0 < old(self).insts@.len() ==> final(self).wf(),
    {
        self.values.push(ValueData { ty, def: ValueDef::Inst(inst), name: None })
    }

    /// Names a value; a value that the function does not hold is left alone.
    pub fn set_value_name(&mut self, val: Value, name: &str)
        ensures
            val.0 < old(self).values@.len() ==> final(self).values@ == old(self).values@.update(
                val.0 as int,
                ValueData { name: final(self).values@[val.0 as int].name, ..old(self).values@[val.0 as int] },
            ),
            val.0 < old(self).values@.len() ==> (final(self).values@[val.0 as int].name matches Some(n) && n@ == name@),
            val.0 >= old(self).values@.len() ==> final(self).values@ == old(self).values@,
            final(self).name == old(self).name,
            final(self).params == old(self).params,
            final(self).return_type == old(self).return_type,
            final(self).blocks@ == old(self).blocks@,
            final(self).insts@ == old(self).insts@,
            final(self).entry_block == old(self).entry_block,
            old(self).wf() ==> final(self).wf(),
    {
        if val.index() < self.values.len() {
            let old_data = self.values.replace(val, ValueData { ty: Type::Void, def: ValueDef::Param(0), name: None });
            let new_data = ValueData { ty: old_data.ty, def: old_data.def, name: Some(owned(name)) };
            self.values.replace(val, new_data);
            proof {
                assert(self.values@ =~= old(self).values@.update(
                    val.0 as int,
                    ValueData { name: self.values@[val.0 as int].name, ..old(self).values@[val.0 as int] },
                ));
            }
        }
    }

    /// Appends an instruction to a block, with a new result value when a type is given.
    pub fn push_inst(&mut self, block: Block, inst: Instruction, result_type: Option<Type>) -> (r: (Inst, Option<Value>))
        requires
            block.0 < old(self).blocks@.len(),
            old(self).insts@.len() < u32::MAX,
            old(self).values@.len() < u32::MAX,
        ensures
            r.0.0 == old(self).insts@.len(),
            final(self).insts@ == old(self).insts@.push(inst),
            final(self).blocks@ == old(self).blocks@.update(
                block.0 as int,
                BlockData { insts: final(self).blocks@[block.0 as int].insts, ..old(self).blocks@[block.0 as int] },
            ),
            final(self).blocks@[block.0 as int].insts@ == old(self).blocks@[block.0 as int].insts@.push(r.0),
            match result_type {
                Some(ty) => r.1 == Some(Value(old(self).values@.len() as u32))
                    && final(self).values@ == old(self).values@.push(ValueData { ty, def: ValueDef::Inst(r.0), name: None }),
                None => r.1 is None && final(self).values@ == old(self).values@,
            },
            final(self).name == old(self).name,
            final(self).params == old(self).params,
            final(self).return_type == old(self).return_type,
            final(self).entry_block == old(self).entry_block,
            old(self).wf() ==> final(self).wf(),
    {
        let inst_id = self.insts.push(inst);
        let mut bd = self.blocks.replace(block, BlockData { name: String::new(), insts: Vec::new() });
        bd.insts.push(inst_id);
        self.blocks.replace(block, bd);
        let val_id = match result_type {
            Some(ty) => Some(self.create_value(ty, inst_id)),
            None => None,
        };
        proof {
            let nb = self.blocks@;
            assert(nb =~= old(self).blocks@.update(
                block.0 as int,
                BlockData { insts: nb[block.0 as int].insts, ..old(self).blocks@[block.0 as int] },
            ));
            if old(self).wf() {
                assert forall|b: int, k: int| 0 <= b < self.blocks@.len() && 0 <= k < self.blocks@[b].insts@.len()
                    implies (#[trigger] self.blocks@[b].insts@[k]).0 < self.insts@.len() by {
                    if b != block.0 {
                        assert(self.blocks@[b] == old(self).blocks@[b]);
                    } else if k < old(self).blocks@[b].insts@.len() {
                        assert(self.blocks@[b].insts@[k] == old(self).blocks@[b].insts@[k]);
                    }
                }
            }
        }
        (inst_id, val_id)
    }

    /// The first block with the given name.
    pub fn block_by_name(&self, name: &str) -> (r: Option<Block>)
        requires
            self.blocks@.len() <= u32::MAX,
        ensures
            r matches Some(b) ==> b.0 < self.blocks@.len() && self.blocks@[b.0 as int].name@ == name@
                && forall|j: int| 0 <= j < b.0 ==> self.blocks@[j].name@ != name@,
            r is None ==> forall|j: int| 0 <= j < self.blocks@.len() ==> self.blocks@[j].name@ != name@,
    {
        let n = self.blocks.len();
        let mut i: usize = 0;
        while i < n
            invariant
                n == self.blocks@.len() <= u32::MAX,
                i <= n,
                forall|j: int| 0 <= j < i ==> self.blocks@[j].name@ != name@,
            decreases n - i,
        {
            let b = Block(i as u32);
            if str_eq(self.blocks.at(b).name.as_str(), name) {
                return Some(b);
            }
            i = i + 1;
        }
        None
    }

    /// The value of the first parameter with the given name.
    pub fn param_by_name(&self, name: &str) -> (r: Option<Value>)
        ensures
            r matches Some(v) ==> exists|p: int| 0 <= p < self.params@.len() && self.params@[p].0@ == name@
                && self.params@[p].1 == v && forall|j: int| 0 <= j < p ==> self.params@[j].0@ != name@,
            r is None ==> forall|j: int| 0 <= j < self.params@.len() ==> self.params@[j].0@ != name@,
    {
        let mut i: usize = 0;
        while i < self.params.len()
            invariant
                i <= self.params@.len(),
                forall|j: int| 0 <= j < i ==> self.params@[j].0@ != name@,
            decreases self.params@.len() - i,
        {
            if str_eq(self.params[i].0.as_str(), name) {
                return Some(self.params[i].1);
            }
            i = i + 1;
        }
        None
    }
}

/// The value that an instruction defines: the last value whose definition
/// is that instruction.
pub open spec fn inst_result(vals: Seq<ValueData>, i: Inst) -> Option<Value>
    decreases vals.len(),
{
    if vals.len() == 0 {
        None
    } else if vals.last().def == ValueDef::Inst(i) {
        Some(Value((vals.len() - 1) as u32))
    } else {
        inst_result(vals.drop_last(), i)
    }
}

/// What `inst_result` gives is a value of the list that the instruction defines.
pub proof fn lemma_inst_result(vals: Seq<ValueData>, i: Inst)
    requires
        vals.len() <= u32::MAX + 1,
    ensures
        inst_result(vals, i) matches Some(v) ==> v.0 < vals.len() && vals[v.0 as int].def == ValueDef::Inst(i),
    decreases vals.len(),
{
    if vals.len() > 0 && vals.last().def != ValueDef::Inst(i) {
        lemma_inst_result(vals.drop_last(), i);
    }
}

} // verus!
