//! Wire-level constants and the header codec model.
//!
//! Each encoded value ends with a prefix byte whose high six bits name the
//! type family and whose low two bits give the size class: the width in
//! bytes (1, 2, 4 or 8) of the length or value field that precedes it.

use vstd::prelude::*;

verus! {

pub const UNDEFINED: u8 = 0xFC;
pub const NULL: u8 = 0x00;
pub const BOOL: u8 = 0x04;
pub const INT: u8 = 0x08;
pub const UINT: u8 = 0x0C;
pub const FLOAT: u8 = 0x10;
pub const STRING: u8 = 0x14;
pub const BYTES: u8 = 0x18;
pub const UUID: u8 = 0x1C;
pub const DATETIME: u8 = 0x20;
pub const TIMESTAMP: u8 = 0x24;
pub const DURATION: u8 = 0x28;
pub const ARRAY: u8 = 0x2C;
pub const OBJECT: u8 = 0x30;
pub const WRAPPED_JSON: u8 = 0x34;
pub const META: u8 = 0x38;
pub const PADDING: u8 = 0x3C;

/// Size-class codes stored in the low two bits of a prefix byte.
pub const SIZE_PREFIX_1BYTE: u8 = 0;
pub const SIZE_PREFIX_2BYTE: u8 = 1;
pub const SIZE_PREFIX_4BYTE: u8 = 2;
pub const SIZE_PREFIX_8BYTE: u8 = 3;
/// Low-bits mask that extracts the size class from a prefix byte.
pub const MASK: u8 = 3;

/// Magic tag a serializer may append so content sniffers can recognize a
/// TON stream; its final byte is not a valid prefix byte, so a decoder can
/// always tell it apart from an encoded value.
pub const TON_V1_REV_TAG: [u8; 4] = [0x54, 0x4F, 0x4E, 0x52];

/// The self-describe tag as a byte sequence.
pub open spec fn tag_seq() -> Seq<u8> {
    seq![0x54u8, 0x4Fu8, 0x4Eu8, 0x52u8]
}

/// Width in bytes of the length/value field for a size class.
pub open spec fn class_width(c: int) -> nat {
    if c == 0 {
        1
    } else if c == 1 {
        2
    } else if c == 2 {
        4
    } else {
        8
    }
}

/// Largest length a size class can carry.
pub open spec fn class_max(c: int) -> nat {
    if c == 0 {
        0xFF
    } else if c == 1 {
        0xFFFF
    } else if c == 2 {
        0xFFFF_FFFF
    } else {
        0xFFFF_FFFF_FFFF_FFFF
    }
}

/// The smallest size class whose field can hold `len`.
pub open spec fn size_class_of(len: nat) -> int {
    if len <= 0xFF {
        0
    } else if len <= 0xFFFF {
        1
    } else if len <= 0xFFFF_FFFF {
        2
    } else {
        3
    }
}

/// Little-endian bytes of `len` in the field width of size class `c`.
pub open spec fn len_le_bytes(len: nat, c: int) -> Seq<u8> {
    if c == 0 {
        seq![len as u8]
    } else if c == 1 {
        vstd::bytes::spec_u16_to_le_bytes(len as u16)
    } else if c == 2 {
        vstd::bytes::spec_u32_to_le_bytes(len as u32)
    } else {
        vstd::bytes::spec_u64_to_le_bytes(len as u64)
    }
}

/// The trailing header of a length-carrying value: the length in the
/// smallest fitting size class, then the prefix byte carrying that class.
pub open spec fn header_bytes(family: u8, len: nat) -> Seq<u8> {
    len_le_bytes(len, size_class_of(len)) + seq![(family + size_class_of(len)) as u8]
}

/// A whole frame in write order: payload first, trailing header last.
pub open spec fn frame(family: u8, payload: Seq<u8>) -> Seq<u8> {
    payload + header_bytes(family, payload.len())
}

/// A run of `n` zero bytes.
pub open spec fn zero_bytes(n: nat) -> Seq<u8> {
    Seq::new(n, |i: int| 0u8)
}

/// What `n` bytes of padding leave in the stream: nothing at all for
/// `n == 0`, otherwise the zero payload and its trailing PADDING header.
pub open spec fn pad_enc(n: nat) -> Seq<u8> {
    if n == 0 {
        Seq::empty()
    } else {
        frame(PADDING, zero_bytes(n))
    }
}

/// The size class the header codec picks is minimal: the length fits in
/// the chosen class, and in no smaller one.
pub proof fn lemma_size_class_minimal(len: nat)
    requires
        len <= 0xFFFF_FFFF_FFFF_FFFF,
    ensures
        len <= class_max(size_class_of(len)),
        size_class_of(len) > 0 ==> len > class_max(size_class_of(len) - 1),
{
}

/// A header is the class field plus one prefix byte long.
pub proof fn lemma_header_len(family: u8, len: nat)
    ensures
        header_bytes(family, len).len() == class_width(size_class_of(len)) + 1,
        header_bytes(family, len).last() == (family + size_class_of(len)) as u8,
{
    let c = size_class_of(len);
    if c == 1 {
        vstd::bytes::lemma_auto_spec_u16_to_from_le_bytes();
    } else if c == 2 {
        vstd::bytes::lemma_auto_spec_u32_to_from_le_bytes();
    } else if c == 3 {
        vstd::bytes::lemma_auto_spec_u64_to_from_le_bytes();
    }
}

} // verus!
