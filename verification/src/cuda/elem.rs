//! The types of elements.

use vstd::prelude::*;

verus! {

/// A format of floating-point numbers.
#[derive(Clone, Copy, Debug, PartialEq, Eq, Structural)]
pub enum FloatKind {
    E2M1,
    E2M3,
    E3M2,
    E4M3,
    E5M2,
    UE8M0,
    F16,
    BF16,
    Flex32,
    F32,
    TF32,
    F64,
}

/// A format of signed integers.
#[derive(Clone, Copy, Debug, PartialEq, Eq, Structural)]
pub enum IntKind {
    I8,
    I16,
    I32,
    I64,
}

/// A format of unsigned integers.
#[derive(Clone, Copy, Debug, PartialEq, Eq, Structural)]
pub enum UIntKind {
    U8,
    U16,
    U32,
    U64,
}

/// The type of an element.
#[derive(Clone, Copy, Debug, PartialEq, Eq, Structural)]
pub enum ElemType {
    Float(FloatKind),
    Int(IntKind),
    UInt(UIntKind),
    Bool,
}

/// How elements are stored.
#[derive(Clone, Copy, Debug, PartialEq, Eq, Structural)]
pub enum StorageType {
    /// One by one.
    Scalar(ElemType),
    /// So many together.
    Packed(ElemType, usize),
    /// One by one, for atomic access.
    Atomic(ElemType),
}

impl ElemType {
    /// How many bits the value of an element has.
    pub open spec fn bits(self) -> nat {
        match self {
            ElemType::Float(kind) => match kind {
                FloatKind::E2M1 => 4,
                FloatKind::E2M3 | FloatKind::E3M2 => 6,
                FloatKind::E4M3 | FloatKind::E5M2 | FloatKind::UE8M0 => 8,
                FloatKind::F16 | FloatKind::BF16 => 16,
                FloatKind::Flex32 | FloatKind::F32 | FloatKind::TF32 => 32,
                FloatKind::F64 => 64,
            },
            ElemType::Int(kind) => match kind {
                IntKind::I8 => 8,
                IntKind::I16 => 16,
                IntKind::I32 => 32,
                IntKind::I64 => 64,
            },
            ElemType::UInt(kind) => match kind {
                UIntKind::U8 => 8,
                UIntKind::U16 => 16,
                UIntKind::U32 => 32,
                UIntKind::U64 => 64,
            },
            ElemType::Bool => 8,
        }
    }

    /// How many bits the value of an element has.
    pub fn size_bits(&self) -> (r: usize)
        ensures
            r == self.bits(),
            4 <= r <= 64,
    {
        match self {
            ElemType::Float(kind) => match kind {
                FloatKind::E2M1 => 4,
                FloatKind::E2M3 | FloatKind::E3M2 => 6,
                FloatKind::E4M3 | FloatKind::E5M2 | FloatKind::UE8M0 => 8,
                FloatKind::F16 | FloatKind::BF16 => 16,
                FloatKind::Flex32 | FloatKind::F32 | FloatKind::TF32 => 32,
                FloatKind::F64 => 64,
            },
            ElemType::Int(kind) => match kind {
                IntKind::I8 => 8,
                IntKind::I16 => 16,
                IntKind::I32 => 32,
                IntKind::I64 => 64,
            },
            ElemType::UInt(kind) => match kind {
                UIntKind::U8 => 8,
                UIntKind::U16 => 16,
                UIntKind::U32 => 32,
                UIntKind::U64 => 64,
            },
            ElemType::Bool => 8,
        }
    }
}

impl StorageType {
    /// The type of the elements.
    pub open spec fn elem(self) -> ElemType {
        match self {
            StorageType::Scalar(elem) => elem,
            StorageType::Packed(elem, _) => elem,
            StorageType::Atomic(elem) => elem,
        }
    }

    /// How many bytes one item takes. A single element is padded to whole bytes.
    pub open spec fn bytes(self) -> nat {
        match self {
            StorageType::Packed(elem, factor) => (elem.bits() * factor as nat + 7) / 8,
            _ => (self.elem().bits() + 7) / 8,
        }
    }

    /// The type of the elements.
    pub fn elem_type(&self) -> (r: ElemType)
        ensures
            r == self.elem(),
    {
        match self {
            StorageType::Scalar(elem) => *elem,
            StorageType::Packed(elem, _) => *elem,
            StorageType::Atomic(elem) => *elem,
        }
    }

    /// Whether the bits of one item can be counted.
    pub fn is_sized(&self) -> (r: bool)
        ensures
            r == (self.bytes() <= usize::MAX / 8),
    {
        match self {
            StorageType::Packed(elem, factor) => {
                let bits: u128 = elem.size_bits() as u128;
                let count: u128 = *factor as u128;
                assert(bits * count <= 64 * count) by (nonlinear_arith)
                    requires
                        bits <= 64,
                ;
                assert(bits * count == elem.bits() * (*factor as nat)) by (nonlinear_arith)
                    requires
                        bits == elem.bits(),
                        count == *factor,
                ;
                (bits * count + 7) / 8 <= (usize::MAX / 8) as u128
            },
            _ => true,
        }
    }

    /// How many bytes one item takes.
    pub fn size(&self) -> (r: usize)
        requires
            self.bytes() <= usize::MAX / 8,
        ensures
            r == self.bytes(),
    {
        match self {
            StorageType::Packed(elem, factor) => {
                let bits: usize = elem.size_bits();
                assert(bits * *factor == elem.bits() * (*factor as nat)) by (nonlinear_arith)
                    requires
                        bits == elem.bits(),
                ;
                (bits * *factor + 7) / 8
            },
            _ => (self.elem_type().size_bits() + 7) / 8,
        }
    }

    /// Whether the elements are floating-point numbers.
    pub fn is_float(&self) -> (r: bool)
        ensures
            r == (self.elem() is Float),
    {
        match self.elem_type() {
            ElemType::Float(_) => true,
            _ => false,
        }
    }
}

} // verus!
