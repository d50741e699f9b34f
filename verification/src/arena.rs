//! Strongly-typed entity indices and the arena that hands them out.
use vstd::prelude::*;
use core::marker::PhantomData;

verus! {

/// Implemented by entity index types (wrappers around `u32`).
pub trait EntityId: Copy + Sized {
    /// The index that the entity stands for.
    spec fn id(self) -> nat;

    fn from_u32(idx: u32) -> (r: Self)
        ensures
            r.id() == idx as nat;

    fn as_u32(self) -> (r: u32)
        ensures
            r as nat == self.id();

    fn index(self) -> (r: usize)
        ensures
            r as nat == self.id(),
    {
        self.as_u32() as usize
    }
}

/// An SSA value.
#[derive(Copy, Clone, PartialEq, Eq, Structural, PartialOrd, Ord, Hash, Debug)]
pub struct Value(pub u32);

/// An instruction.
#[derive(Copy, Clone, PartialEq, Eq, Structural, PartialOrd, Ord, Hash, Debug)]
pub struct Inst(pub u32);

/// A basic block.
#[derive(Copy, Clone, PartialEq, Eq, Structural, PartialOrd, Ord, Hash, Debug)]
pub struct Block(pub u32);

/// A function of a module.
#[derive(Copy, Clone, PartialEq, Eq, Structural, PartialOrd, Ord, Hash, Debug)]
pub struct FuncId(pub u32);

impl EntityId for Value {
    open spec fn id(self) -> nat {
        self.0 as nat
    }

    fn from_u32(idx: u32) -> (r: Self) {
        Value(idx)
    }

    fn as_u32(self) -> (r: u32) {
        self.0
    }
}

impl EntityId for Inst {
    open spec fn id(self) -> nat {
        self.0 as nat
    }

    fn from_u32(idx: u32) -> (r: Self) {
        Inst(idx)
    }

    fn as_u32(self) -> (r: u32) {
        self.0
    }
}

impl EntityId for Block {
    open spec fn id(self) -> nat {
        self.0 as nat
    }

    fn from_u32(idx: u32) -> (r: Self) {
        Block(idx)
    }

    fn as_u32(self) -> (r: u32) {
        self.0
    }
}

impl EntityId for FuncId {
    open spec fn id(self) -> nat {
        self.0 as nat
    }

    fn from_u32(idx: u32) -> (r: Self) {
        FuncId(idx)
    }

    fn as_u32(self) -> (r: u32) {
        self.0
    }
}

/// An arena that assigns sequential, strongly-typed keys to values: the
/// value pushed when the arena held `n` values gets the key `n`.
#[derive(PartialEq, Eq, Hash, Debug)]
pub struct Arena<K, V> {
    data: Vec<V>,
    _marker: PhantomData<K>,
}

impl<K: EntityId, V: Clone> Clone for Arena<K, V> {
    fn clone(&self) -> (r: Self) {
        Arena { data: self.data.clone(), _marker: PhantomData }
    }
}

impl<K: EntityId, V> View for Arena<K, V> {
    type V = Seq<V>;

    closed spec fn view(&self) -> Seq<V> {
        self.data@
    }
}

impl<K: EntityId, V> Arena<K, V> {
    pub fn new() -> (r: Self)
        ensures
            r@ == Seq::<V>::empty(),
    {
        Arena { data: Vec::new(), _marker: PhantomData }
    }

    pub fn with_capacity(capacity: usize) -> (r: Self)
        ensures
            r@ == Seq::<V>::empty(),
    {
        Arena { data: Vec::with_capacity(capacity), _marker: PhantomData }
    }

    /// Pushes a new value into the arena and returns its key.
    pub fn push(&mut self, value: V) -> (id: K)
        requires
            old(self)@.len() <= u32::MAX,
        ensures
            id.id() == old(self)@.len(),
            final(self)@ == old(self)@.push(value),
    {
        let id = K::from_u32(self.data.len() as u32);
        self.data.push(value);
        id
    }

    pub fn get(&self, id: K) -> (r: Option<&V>)
        ensures
            id.id() < self@.len() ==> r == Some(&self@[id.id() as int]),
            id.id() >= self@.len() ==> r is None,
    {
        let i = id.index();
        if i < self.data.len() {
            Some(&self.data[i])
        } else {
            None
        }
    }

    /// A mutable reference to the value under `id`, when there is one; what
    /// is written through it is what the arena then holds under `id`.
    pub fn get_mut(&mut self, id: K) -> (r: Option<&mut V>)
        ensures
            id.id() < old(self)@.len() ==> r is Some && *r.unwrap() == old(self)@[id.id() as int]
                && final(self)@ == old(self)@.update(id.id() as int, *final(r.unwrap())),
            id.id() >= old(self)@.len() ==> r is None && final(self)@ == old(self)@,
    {
        let i = id.index();
        if i < self.data.len() {
            Some(&mut self.data[i])
        } else {
            None
        }
    }

    /// Puts `value` under `id`, which must be in the arena, and returns the value it held.
    pub fn replace(&mut self, id: K, value: V) -> (prev: V)
        requires
            id.id() < old(self)@.len(),
        ensures
            prev == old(self)@[id.id() as int],
            final(self)@ == old(self)@.update(id.id() as int, value),
    {
        let i = id.index();
        let mut tmp = value;
        core::mem::swap(&mut self.data[i], &mut tmp);
        tmp
    }

    /// The value under `id`, which must be in the arena.
    pub fn at(&self, id: K) -> (r: &V)
        requires
            id.id() < self@.len(),
        ensures
            *r == self@[id.id() as int],
    {
        &self.data[id.index()]
    }

    pub fn len(&self) -> (r: usize)
        ensures
            r == self@.len(),
    {
        self.data.len()
    }

    pub fn is_empty(&self) -> (r: bool)
        ensures
            r == (self@.len() == 0),
    {
        self.data.len() == 0
    }

    pub fn clear(&mut self)
        ensures
            final(self)@ == Seq::<V>::empty(),
    {
        self.data.clear();
    }

    /// The keys of the arena in order, each with a reference to its value.
    pub fn iter(&self) -> (r: Vec<(K, &V)>)
        requires
            self@.len() <= u32::MAX + 1,
        ensures
            r@.len() == self@.len(),
            forall|i: int| 0 <= i < r@.len() ==> (#[trigger] r@[i]).0.id() == i && *r@[i].1 == self@[i],
    {
        let mut out: Vec<(K, &V)> = Vec::new();
        let mut i: usize = 0;
        while i < self.data.len()
            invariant
                i <= self.data@.len() <= u32::MAX + 1,
                out@.len() == i,
                forall|j: int| 0 <= j < i ==> (#[trigger] out@[j]).0.id() == j && *out@[j].1 == self.data@[j],
            decreases self.data@.len() - i,
        {
            out.push((K::from_u32(i as u32), &self.data[i]));
            i = i + 1;
        }
        out
    }

    /// References to the values of the arena in order.
    pub fn values(&self) -> (r: Vec<&V>)
        ensures
            r@.len() == self@.len(),
            forall|i: int| 0 <= i < r@.len() ==> *(#[trigger] r@[i]) == self@[i],
    {
        let mut out: Vec<&V> = Vec::new();
        let mut i: usize = 0;
        while i < self.data.len()
            invariant
                i <= self.data@.len(),
                out@.len() == i,
                forall|j: int| 0 <= j < i ==> *(#[trigger] out@[j]) == self.data@[j],
            decreases self.data@.len() - i,
        {
            out.push(&self.data[i]);
            i = i + 1;
        }
        out
    }

    /// The keys of the arena in order, each with a mutable reference to its
    /// value; what is written through a reference is what the arena then
    /// holds under its key.
    pub fn iter_mut(&mut self) -> (r: Vec<(K, &mut V)>)
        requires
            old(self)@.len() <= u32::MAX + 1,
        ensures
            r@.len() == old(self)@.len(),
            forall|i: int| 0 <= i < r@.len() ==> (#[trigger] r@[i]).0.id() == i && *r@[i].1 == old(self)@[i],
            final(self)@ == Seq::new(r@.len(), |i: int| *final(r@[i].1)),
    {
        keyed_refs(self.data.as_mut_slice(), 0)
    }

    /// Mutable references to the values of the arena in order; what is
    /// written through a reference is what the arena then holds.
    pub fn values_mut(&mut self) -> (r: Vec<&mut V>)
        ensures
            r@.len() == old(self)@.len(),
            forall|i: int| 0 <= i < r@.len() ==> *(#[trigger] r@[i]) == old(self)@[i],
            final(self)@ == Seq::new(r@.len(), |i: int| *final(r@[i])),
    {
        slice_refs(self.data.as_mut_slice())
    }

    /// The values of the arena as a slice.
    pub fn as_slice(&self) -> (r: &[V])
        ensures
            r@ == self@,
    {
        self.data.as_slice()
    }
}

/// A mutable reference to each element of a slice, in order.
fn slice_refs<'b, V>(s: &'b mut [V]) -> (r: Vec<&'b mut V>)
    ensures
        r@.len() == old(s)@.len(),
        forall|i: int| 0 <= i < r@.len() ==> *(#[trigger] r@[i]) == old(s)@[i],
        final(s)@ == Seq::new(r@.len(), |i: int| *final(r@[i])),
    decreases old(s)@.len(),
{
    if s.len() == 0 {
        Vec::new()
    } else {
        let (head, tail) = s.split_at_mut(1);
        let first = head.first_mut().unwrap();
        let mut rest = slice_refs(tail);
        let mut out = Vec::new();
        out.push(first);
        out.append(&mut rest);
        out
    }
}

/// A mutable reference to each element of a slice, in order, each with the
/// key of its place counted from `first`.
fn keyed_refs<'b, K: EntityId, V>(s: &'b mut [V], first: usize) -> (r: Vec<(K, &'b mut V)>)
    requires
        first + old(s)@.len() <= u32::MAX + 1,
    ensures
        r@.len() == old(s)@.len(),
        forall|i: int| 0 <= i < r@.len() ==> (#[trigger] r@[i]).0.id() == first + i && *r@[i].1 == old(s)@[i],
        final(s)@ == Seq::new(r@.len(), |i: int| *final(r@[i].1)),
    decreases old(s)@.len(),
{
    if s.len() == 0 {
        Vec::new()
    } else {
        let (head, tail) = s.split_at_mut(1);
        let v = head.first_mut().unwrap();
        let next = if tail.len() == 0 { first } else { first + 1 };
        let mut rest = keyed_refs(tail, next);
        let mut out = Vec::new();
        out.push((K::from_u32(first as u32), v));
        out.append(&mut rest);
        out
    }
}

/// What `push` stores, `get` gives back under the key that `push` returned,
/// and the values under the keys handed out before stay as they were.
pub proof fn lemma_read_after_push<K: EntityId, V>(before: Arena<K, V>, after: Arena<K, V>, value: V, id: K)
    requires
        after@ == before@.push(value),
        id.id() == before@.len(),
    ensures
        id.id() < after@.len(),
        after@[id.id() as int] == value,
        forall|j: int| 0 <= j < before@.len() ==> #[trigger] after@[j] == before@[j],
{
}

} // verus!
