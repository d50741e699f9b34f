//! Modules of the IR: external declarations and defined functions.
use vstd::prelude::*;
use crate::arena::{Arena, EntityId, FuncId};
use crate::function::Function;
use crate::types::Type;
use crate::text::{owned, str_eq};

verus! {

/// Declaration of an external function.
#[derive(Clone, PartialEq, Eq, Hash, Debug)]
pub struct ExternalDecl {
    pub name: String,
    pub params: Vec<Type>,
    pub return_type: Type,
}

impl ExternalDecl {
    pub fn new(name: &str, params: Vec<Type>, return_type: Type) -> (r: Self)
        ensures
            r.name@ == name@,
            r.params == params,
            r.return_type == return_type,
    {
        ExternalDecl { name: owned(name), params, return_type }
    }
}

/// A compilation module: external declarations and defined functions, and
/// the name under which each function was added. A name names the function
/// added last under it; renaming a function afterwards does not change the
/// table.
#[derive(Clone, PartialEq, Eq, Debug)]
pub struct Module {
    pub functions: Arena<FuncId, Function>,
    pub externs: Vec<ExternalDecl>,
    pub func_names: Vec<(String, FuncId)>,
}

/// The name table, with names as character sequences.
pub open spec fn name_table(t: Seq<(String, FuncId)>) -> Seq<(Seq<char>, FuncId)> {
    Seq::new(t.len(), |i: int| (t[i].0@, t[i].1))
}

/// The key that the table gives a name: that of its last entry.
pub open spec fn named_id(t: Seq<(Seq<char>, FuncId)>, name: Seq<char>) -> Option<FuncId>
    decreases t.len(),
{
    if t.len() == 0 {
        None
    } else if t.last().0 == name {
        Some(t.last().1)
    } else {
        named_id(t.drop_last(), name)
    }
}

impl Module {
    pub fn new() -> (r: Self)
        ensures
            r.functions@ == Seq::<Function>::empty(),
            r.externs@ == Seq::<ExternalDecl>::empty(),
            r.func_names@ == Seq::<(String, FuncId)>::empty(),
    {
        Module { functions: Arena::new(), externs: Vec::new(), func_names: Vec::new() }
    }

    pub fn add_extern(&mut self, name: &str, params: Vec<Type>, return_type: Type)
        ensures
            final(self).functions == old(self).functions,
            final(self).func_names == old(self).func_names,
            final(self).externs@.len() == old(self).externs@.len() + 1,
            final(self).externs@.drop_last() == old(self).externs@,
            final(self).externs@.last().name@ == name@,
            final(self).externs@.last().params == params,
            final(self).externs@.last().return_type == return_type,
    {
        self.externs.push(ExternalDecl::new(name, params, return_type));
        proof {
            assert(self.externs@.drop_last() =~= old(self).externs@);
        }
    }

    pub fn add_function(&mut self, func: Function) -> (id: FuncId)
        requires
            old(self).functions@.len() <= u32::MAX,
        ensures
            id.0 == old(self).functions@.len(),
            final(self).functions@ == old(self).functions@.push(func),
            final(self).externs == old(self).externs,
            name_table(final(self).func_names@) == name_table(old(self).func_names@).push((func.name@, id)),
    {
        let name = owned(func.name.as_str());
        let id = self.functions.push(func);
        let ghost t0 = name_table(self.func_names@);
        self.func_names.push((name, id));
        assert(name_table(self.func_names@) =~= t0.push((name@, id)));
        id
    }

    pub fn get_function(&self, id: FuncId) -> (r: Option<&Function>)
        ensures
            id.0 < self.functions@.len() ==> r == Some(&self.functions@[id.0 as int]),
            id.0 >= self.functions@.len() ==> r is None,
    {
        self.functions.get(id)
    }

    /// A mutable reference to the function under `id`, when there is one;
    /// what is written through it is what the module then holds under `id`.
    pub fn get_function_mut(&mut self, id: FuncId) -> (r: Option<&mut Function>)
        ensures
            id.0 < old(self).functions@.len() ==> r is Some && *r.unwrap() == old(self).functions@[id.0 as int]
                && final(self).functions@ == old(self).functions@.update(id.0 as int, *final(r.unwrap())),
            id.0 >= old(self).functions@.len() ==> r is None && final(self).functions@ == old(self).functions@,
            final(self).externs == old(self).externs,
            final(self).func_names == old(self).func_names,
    {
        self.functions.get_mut(id)
    }

    /// The function that the name table gives the name: the one added last
    /// under it, whatever its name is now.
    pub fn get_function_by_name(&self, name: &str) -> (r: Option<&Function>)
        ensures
            match named_id(name_table(self.func_names@), name@) {
                Some(id) => if id.0 < self.functions@.len() { r == Some(&self.functions@[id.0 as int]) } else { r is None },
                None => r is None,
            },
    {
        match self.get_function_id_by_name(name) {
            Some(id) => self.functions.get(id),
            None => None,
        }
    }

    /// The key that the name table gives the name: that of the function
    /// added last under it.
    pub fn get_function_id_by_name(&self, name: &str) -> (r: Option<FuncId>)
        ensures
            r == named_id(name_table(self.func_names@), name@),
    {
        let ghost t = name_table(self.func_names@);
        let names = self.func_names.as_slice();
        let mut i: usize = names.len();
        assert(t.subrange(0, i as int) =~= t);
        while i > 0
            invariant
                names@ == self.func_names@,
                t == name_table(names@),
                i <= names@.len(),
                named_id(t, name@) == named_id(t.subrange(0, i as int), name@),
            decreases i,
        {
            let ghost pre = t.subrange(0, i as int);
            assert(pre.drop_last() =~= t.subrange(0, i as int - 1));
            assert(pre.last() == (names@[i - 1].0@, names@[i - 1].1));
            if str_eq(names[i - 1].0.as_str(), name) {
                return Some(names[i - 1].1);
            }
            i = i - 1;
        }
        None
    }
}

} // verus!
