//! Width-tagged integer and float-bits unions.
//!
//! Floats are carried as their IEEE 754 bit patterns, so equality and
//! ordering on keys is bit-identity.

use vstd::prelude::*;

verus! {

#[derive(Debug, Hash, PartialEq, Eq, Clone, Copy)]
pub enum Int {
    I8(i8),
    I16(i16),
    I32(i32),
    I64(i64),
}

#[derive(Debug, Hash, PartialEq, Eq, Clone, Copy)]
pub enum UInt {
    U8(u8),
    U16(u16),
    U32(u32),
    U64(u64),
}

/// IEEE 754 bit patterns: 16, 32 or 64 bits wide.
#[derive(Debug, Hash, PartialEq, Eq, Clone, Copy)]
pub enum Float {
    F16(u16),
    F32(u32),
    F64(u64),
}

/// Two's-complement residue of an 8-bit signed value.
pub open spec fn i8_bits(v: i8) -> u8 {
    if v >= 0 {
        v as u8
    } else {
        (v + 0x100) as u8
    }
}

/// Two's-complement residue of a 16-bit signed value.
pub open spec fn i16_bits(v: i16) -> u16 {
    if v >= 0 {
        v as u16
    } else {
        (v + 0x10000) as u16
    }
}

/// Two's-complement residue of a 32-bit signed value.
pub open spec fn i32_bits(v: i32) -> u32 {
    if v >= 0 {
        v as u32
    } else {
        (v + 0x1_0000_0000) as u32
    }
}

/// Two's-complement residue of a 64-bit signed value.
pub open spec fn i64_bits(v: i64) -> u64 {
    if v >= 0 {
        v as u64
    } else {
        (v + 0x1_0000_0000_0000_0000) as u64
    }
}

/// Little-endian value field of a signed integer, at the width of its tag.
pub open spec fn int_bytes(i: Int) -> Seq<u8> {
    match i {
        Int::I8(v) => seq![i8_bits(v)],
        Int::I16(v) => vstd::bytes::spec_u16_to_le_bytes(i16_bits(v)),
        Int::I32(v) => vstd::bytes::spec_u32_to_le_bytes(i32_bits(v)),
        Int::I64(v) => vstd::bytes::spec_u64_to_le_bytes(i64_bits(v)),
    }
}

/// Prefix byte of a signed integer: the INT family plus its width class.
pub open spec fn int_prefix(i: Int) -> u8 {
    match i {
        Int::I8(_) => 0x08u8,
        Int::I16(_) => 0x09u8,
        Int::I32(_) => 0x0Au8,
        Int::I64(_) => 0x0Bu8,
    }
}

/// Little-endian value field of an unsigned integer, at the width of its tag.
pub open spec fn uint_bytes(u: UInt) -> Seq<u8> {
    match u {
        UInt::U8(v) => seq![v],
        UInt::U16(v) => vstd::bytes::spec_u16_to_le_bytes(v),
        UInt::U32(v) => vstd::bytes::spec_u32_to_le_bytes(v),
        UInt::U64(v) => vstd::bytes::spec_u64_to_le_bytes(v),
    }
}

/// Prefix byte of an unsigned integer: the UINT family plus its width class.
pub open spec fn uint_prefix(u: UInt) -> u8 {
    match u {
        UInt::U8(_) => 0x0Cu8,
        UInt::U16(_) => 0x0Du8,
        UInt::U32(_) => 0x0Eu8,
        UInt::U64(_) => 0x0Fu8,
    }
}

/// Little-endian value field of a float-bits value.
pub open spec fn float_bytes(f: Float) -> Seq<u8> {
    match f {
        Float::F16(v) => vstd::bytes::spec_u16_to_le_bytes(v),
        Float::F32(v) => vstd::bytes::spec_u32_to_le_bytes(v),
        Float::F64(v) => vstd::bytes::spec_u64_to_le_bytes(v),
    }
}

/// Prefix byte of a float: the FLOAT family plus its width class.
pub open spec fn float_prefix(f: Float) -> u8 {
    match f {
        Float::F16(_) => 0x11u8,
        Float::F32(_) => 0x12u8,
        Float::F64(_) => 0x13u8,
    }
}

} // verus!
