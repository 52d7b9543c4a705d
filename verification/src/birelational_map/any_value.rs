use vstd::prelude::*;
use crate::birelational_map::BirelationalId;

verus! {

/// The kinds of value a `BirelationalAnyValueMap` holds: the primitive
/// integers and strings.
#[derive(Clone, Copy, PartialEq, Eq, Structural, Debug)]
pub enum ValueKind {
    Isize,
    Usize,
    I8,
    U8,
    I16,
    U16,
    I32,
    U32,
    I64,
    U64,
    I128,
    U128,
    Str,
}

/// A value of one of the kinds that a `BirelationalAnyValueMap` holds.
#[derive(Clone, Debug, PartialEq, Eq)]
pub enum AnyValue {
    Isize(isize),
    Usize(usize),
    I8(i8),
    U8(u8),
    I16(i16),
    U16(u16),
    I32(i32),
    U32(u32),
    I64(i64),
    U64(u64),
    I128(i128),
    U128(u128),
    Str(String),
}

/// The number that identifies a kind.
pub open spec fn kind_number(kind: ValueKind) -> usize {
    match kind {
        ValueKind::Isize => 0,
        ValueKind::Usize => 1,
        ValueKind::I8 => 2,
        ValueKind::U8 => 3,
        ValueKind::I16 => 4,
        ValueKind::U16 => 5,
        ValueKind::I32 => 6,
        ValueKind::U32 => 7,
        ValueKind::I64 => 8,
        ValueKind::U64 => 9,
        ValueKind::I128 => 10,
        ValueKind::U128 => 11,
        ValueKind::Str => 12,
    }
}

/// The kind of a value.
pub open spec fn kind_of(value: AnyValue) -> ValueKind {
    match value {
        AnyValue::Isize(_) => ValueKind::Isize,
        AnyValue::Usize(_) => ValueKind::Usize,
        AnyValue::I8(_) => ValueKind::I8,
        AnyValue::U8(_) => ValueKind::U8,
        AnyValue::I16(_) => ValueKind::I16,
        AnyValue::U16(_) => ValueKind::U16,
        AnyValue::I32(_) => ValueKind::I32,
        AnyValue::U32(_) => ValueKind::U32,
        AnyValue::I64(_) => ValueKind::I64,
        AnyValue::U64(_) => ValueKind::U64,
        AnyValue::I128(_) => ValueKind::I128,
        AnyValue::U128(_) => ValueKind::U128,
        AnyValue::Str(_) => ValueKind::Str,
    }
}

/// Two values are the same when they are of one kind and equal; strings are
/// compared by their characters.
pub open spec fn same_value(a: AnyValue, b: AnyValue) -> bool {
    match (a, b) {
        (AnyValue::Isize(x), AnyValue::Isize(y)) => x == y,
        (AnyValue::Usize(x), AnyValue::Usize(y)) => x == y,
        (AnyValue::I8(x), AnyValue::I8(y)) => x == y,
        (AnyValue::U8(x), AnyValue::U8(y)) => x == y,
        (AnyValue::I16(x), AnyValue::I16(y)) => x == y,
        (AnyValue::U16(x), AnyValue::U16(y)) => x == y,
        (AnyValue::I32(x), AnyValue::I32(y)) => x == y,
        (AnyValue::U32(x), AnyValue::U32(y)) => x == y,
        (AnyValue::I64(x), AnyValue::I64(y)) => x == y,
        (AnyValue::U64(x), AnyValue::U64(y)) => x == y,
        (AnyValue::I128(x), AnyValue::I128(y)) => x == y,
        (AnyValue::U128(x), AnyValue::U128(y)) => x == y,
        (AnyValue::Str(x), AnyValue::Str(y)) => x@ == y@,
        _ => false,
    }
}

impl ValueKind {
    /// The number that identifies this kind.
    pub fn number(&self) -> (n: usize)
        ensures
            n == kind_number(*self),
    {
        match self {
            ValueKind::Isize => 0,
            ValueKind::Usize => 1,
            ValueKind::I8 => 2,
            ValueKind::U8 => 3,
            ValueKind::I16 => 4,
            ValueKind::U16 => 5,
            ValueKind::I32 => 6,
            ValueKind::U32 => 7,
            ValueKind::I64 => 8,
            ValueKind::U64 => 9,
            ValueKind::I128 => 10,
            ValueKind::U128 => 11,
            ValueKind::Str => 12,
        }
    }
}

impl AnyValue {
    /// The kind of this value.
    pub fn kind(&self) -> (kind: ValueKind)
        ensures
            kind == kind_of(*self),
    {
        match self {
            AnyValue::Isize(_) => ValueKind::Isize,
            AnyValue::Usize(_) => ValueKind::Usize,
            AnyValue::I8(_) => ValueKind::I8,
            AnyValue::U8(_) => ValueKind::U8,
            AnyValue::I16(_) => ValueKind::I16,
            AnyValue::U16(_) => ValueKind::U16,
            AnyValue::I32(_) => ValueKind::I32,
            AnyValue::U32(_) => ValueKind::U32,
            AnyValue::I64(_) => ValueKind::I64,
            AnyValue::U64(_) => ValueKind::U64,
            AnyValue::I128(_) => ValueKind::I128,
            AnyValue::U128(_) => ValueKind::U128,
            AnyValue::Str(_) => ValueKind::Str,
        }
    }

    /// Whether `self` and `other` are of one kind and equal.
    pub fn same_as(&self, other: &AnyValue) -> (same: bool)
        ensures
            same == same_value(*self, *other),
    {
        match (self, other) {
            (AnyValue::Isize(x), AnyValue::Isize(y)) => *x == *y,
            (AnyValue::Usize(x), AnyValue::Usize(y)) => *x == *y,
            (AnyValue::I8(x), AnyValue::I8(y)) => *x == *y,
            (AnyValue::U8(x), AnyValue::U8(y)) => *x == *y,
            (AnyValue::I16(x), AnyValue::I16(y)) => *x == *y,
            (AnyValue::U16(x), AnyValue::U16(y)) => *x == *y,
            (AnyValue::I32(x), AnyValue::I32(y)) => *x == *y,
            (AnyValue::U32(x), AnyValue::U32(y)) => *x == *y,
            (AnyValue::I64(x), AnyValue::I64(y)) => *x == *y,
            (AnyValue::U64(x), AnyValue::U64(y)) => *x == *y,
            (AnyValue::I128(x), AnyValue::I128(y)) => *x == *y,
            (AnyValue::U128(x), AnyValue::U128(y)) => *x == *y,
            (AnyValue::Str(x), AnyValue::Str(y)) => x.eq(y),
            _ => false,
        }
    }
}

impl BirelationalId<usize> for AnyValue {
    /// A value is filed under the number of its kind: values of one kind
    /// share an id.
    fn get_id(&self) -> (id: usize)
        ensures
            id == kind_number(kind_of(*self)),
    {
        self.kind().number()
    }
}

/// Two values are the same exactly when they are equal: values of different
/// kinds never are, two integers of one kind are when they are equal, and two
/// strings are when they hold the same characters.
pub proof fn law_same_value_is_equality(a: AnyValue, b: AnyValue)
    ensures
        !(a is Str && b is Str) ==> (same_value(a, b) <==> a == b),
        a is Str && b is Str ==> (same_value(a, b) <==> a->Str_0@ == b->Str_0@),
        same_value(a, b) ==> kind_of(a) == kind_of(b),
{
}

/// Each value's kind is the kind of the same name as its variant.
pub proof fn law_kind_of_names_the_variant(v: AnyValue)
    ensures
        v is Isize <==> kind_of(v) == ValueKind::Isize,
        v is Usize <==> kind_of(v) == ValueKind::Usize,
        v is I8 <==> kind_of(v) == ValueKind::I8,
        v is U8 <==> kind_of(v) == ValueKind::U8,
        v is I16 <==> kind_of(v) == ValueKind::I16,
        v is U16 <==> kind_of(v) == ValueKind::U16,
        v is I32 <==> kind_of(v) == ValueKind::I32,
        v is U32 <==> kind_of(v) == ValueKind::U32,
        v is I64 <==> kind_of(v) == ValueKind::I64,
        v is U64 <==> kind_of(v) == ValueKind::U64,
        v is I128 <==> kind_of(v) == ValueKind::I128,
        v is U128 <==> kind_of(v) == ValueKind::U128,
        v is Str <==> kind_of(v) == ValueKind::Str,
{
}

/// Different kinds have different numbers, so values of different kinds are
/// filed under different ids.
pub proof fn law_kind_numbers_distinct(a: ValueKind, b: ValueKind)
    ensures
        a != b ==> kind_number(a) != kind_number(b),
{
}

} // verus!
