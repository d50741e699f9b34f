//! Primitive data types of the IR.
use vstd::prelude::*;
use crate::text::{owned, str_eq};

verus! {

/// Primitive data types in the intermediate representation.
#[derive(Copy, Clone, PartialEq, Eq, Structural, PartialOrd, Ord, Hash, Debug)]
pub enum Type {
    /// 1-bit integer / boolean condition.
    I1,
    /// 8-bit integer.
    I8,
    /// 16-bit integer.
    I16,
    /// 32-bit integer.
    I32,
    /// 64-bit integer.
    I64,
    /// 32-bit IEEE 754 value, held as its bit pattern.
    F32,
    /// 64-bit IEEE 754 value, held as its bit pattern.
    F64,
    /// Memory pointer (64-bit address space on target).
    Ptr,
    /// Void type (no return value or empty value).
    Void,
}

impl Type {
    /// The textual name of the type.
    pub open spec fn name(self) -> Seq<char> {
        match self {
            Type::I1 => "i1"@,
            Type::I8 => "i8"@,
            Type::I16 => "i16"@,
            Type::I32 => "i32"@,
            Type::I64 => "i64"@,
            Type::F32 => "f32"@,
            Type::F64 => "f64"@,
            Type::Ptr => "ptr"@,
            Type::Void => "void"@,
        }
    }

    pub open spec fn spec_bit_width(self) -> Option<u32> {
        match self {
            Type::I1 => Some(1u32),
            Type::I8 => Some(8u32),
            Type::I16 => Some(16u32),
            Type::I32 | Type::F32 => Some(32u32),
            Type::I64 | Type::F64 | Type::Ptr => Some(64u32),
            Type::Void => None,
        }
    }

    pub open spec fn spec_byte_size(self) -> Option<u32> {
        match self {
            Type::I1 | Type::I8 => Some(1u32),
            Type::I16 => Some(2u32),
            Type::I32 | Type::F32 => Some(4u32),
            Type::I64 | Type::F64 | Type::Ptr => Some(8u32),
            Type::Void => None,
        }
    }

    /// Returns true if this type is an integer type (I1..I64).
    pub fn is_int(&self) -> (r: bool)
        ensures
            r == (*self is I1 || *self is I8 || *self is I16 || *self is I32 || *self is I64),
    {
        matches!(self, Type::I1 | Type::I8 | Type::I16 | Type::I32 | Type::I64)
    }

    /// Returns true if this type is a floating-point type (F32, F64).
    pub fn is_float(&self) -> (r: bool)
        ensures
            r == (*self is F32 || *self is F64),
    {
        matches!(self, Type::F32 | Type::F64)
    }

    /// Returns true if this is the void type.
    pub fn is_void(&self) -> (r: bool)
        ensures
            r == (*self is Void),
    {
        matches!(self, Type::Void)
    }

    /// Returns the bit width of the type, or None for Void.
    pub fn bit_width(&self) -> (r: Option<u32>)
        ensures
            r == self.spec_bit_width(),
    {
        match self {
            Type::I1 => Some(1),
            Type::I8 => Some(8),
            Type::I16 => Some(16),
            Type::I32 | Type::F32 => Some(32),
            Type::I64 | Type::F64 | Type::Ptr => Some(64),
            Type::Void => None,
        }
    }

    /// Returns the byte size of the type (rounding up I1 to 1 byte), or None for Void.
    pub fn byte_size(&self) -> (r: Option<u32>)
        ensures
            r == self.spec_byte_size(),
    {
        match self {
            Type::I1 | Type::I8 => Some(1),
            Type::I16 => Some(2),
            Type::I32 | Type::F32 => Some(4),
            Type::I64 | Type::F64 | Type::Ptr => Some(8),
            Type::Void => None,
        }
    }

    /// The textual name of the type, as the printer writes it.
    pub fn as_str(&self) -> (r: &'static str)
        ensures
            r@ == self.name(),
    {
        match self {
            Type::I1 => "i1",
            Type::I8 => "i8",
            Type::I16 => "i16",
            Type::I32 => "i32",
            Type::I64 => "i64",
            Type::F32 => "f32",
            Type::F64 => "f64",
            Type::Ptr => "ptr",
            Type::Void => "void",
        }
    }

    /// The textual name of the type as an owned string.
    pub fn to_string(&self) -> (r: String)
        ensures
            r@ == self.name(),
    {
        owned(self.as_str())
    }

    /// Parses a type name; the error names the unknown text.
    pub fn from_str(s: &str) -> (r: Result<Type, String>)
        ensures
            r matches Ok(t) ==> t.name() == s@,
            r is Err ==> forall|t: Type| t.name() != s@,
            r matches Err(e) ==> e@ == "Unknown IR type: '"@ + s@ + "'"@,
            (forall|t: Type| t.name() != s@) ==> r is Err,
    {
        let all = [Type::I1, Type::I8, Type::I16, Type::I32, Type::I64, Type::F32, Type::F64, Type::Ptr, Type::Void];
        let mut i: usize = 0;
        while i < 9
            invariant
                0 <= i <= 9,
                all@ == seq![Type::I1, Type::I8, Type::I16, Type::I32, Type::I64, Type::F32, Type::F64, Type::Ptr, Type::Void],
                forall|j: int| 0 <= j < i ==> all@[j].name() != s@,
            decreases 9 - i,
        {
            if str_eq(all[i].as_str(), s) {
                return Ok(all[i]);
            }
            i = i + 1;
        }
        proof {
            assert forall|t: Type| t.name() != s@ by {
                let k: int = match t {
                    Type::I1 => 0,
                    Type::I8 => 1,
                    Type::I16 => 2,
                    Type::I32 => 3,
                    Type::I64 => 4,
                    Type::F32 => 5,
                    Type::F64 => 6,
                    Type::Ptr => 7,
                    Type::Void => 8,
                };
                assert(all@[k] == t);
            }
        }
        let mut msg = owned("Unknown IR type: '");
        crate::text::push_str(&mut msg, s);
        crate::text::push_str(&mut msg, "'");
        Err(msg)
    }
}

spec fn type_of_name(s: Seq<char>) -> Type {
    if s.len() == 2 && s[1] == '1' {
        Type::I1
    } else if s.len() == 2 && s[1] == '8' {
        Type::I8
    } else if s.len() == 3 && s[0] == 'i' && s[1] == '1' {
        Type::I16
    } else if s.len() == 3 && s[0] == 'i' && s[1] == '3' {
        Type::I32
    } else if s.len() == 3 && s[0] == 'i' && s[1] == '6' {
        Type::I64
    } else if s.len() == 3 && s[0] == 'f' && s[1] == '3' {
        Type::F32
    } else if s.len() == 3 && s[0] == 'f' && s[1] == '6' {
        Type::F64
    } else if s.len() == 3 && s[0] == 'p' {
        Type::Ptr
    } else {
        Type::Void
    }
}

proof fn lemma_type_of_name(t: Type)
    ensures
        type_of_name(t.name()) == t,
{
    match t {
        Type::I1 => { reveal_strlit("i1"); }
        Type::I8 => { reveal_strlit("i8"); }
        Type::I16 => { reveal_strlit("i16"); }
        Type::I32 => { reveal_strlit("i32"); }
        Type::I64 => { reveal_strlit("i64"); }
        Type::F32 => { reveal_strlit("f32"); }
        Type::F64 => { reveal_strlit("f64"); }
        Type::Ptr => { reveal_strlit("ptr"); }
        Type::Void => { reveal_strlit("void"); }
    }
}

/// Names tell types apart: the name a type is printed under is read back,
/// by `Type::from_str`, as that type and no other.
pub proof fn lemma_type_name_round_trip(t: Type, u: Type)
    requires
        u.name() == t.name(),
    ensures
        u == t,
{
    lemma_type_of_name(t);
    lemma_type_of_name(u);
}

} // verus!
