//! The reverse streaming serializer.
//!
//! Values are written payload first and header last, so the finished
//! stream is read back-to-front. Every operation states exactly which
//! bytes it appends.

use vstd::prelude::*;

use crate::error::Error;
use crate::value::num::{Float, Int, UInt};
use crate::value::prefix;
use crate::value::value::{
    abs_entries, abs_key, abs_list, abs_value, enc, enc_entries, enc_key, enc_list, key_sizes_ok,
    lemma_abs_entries_props, lemma_abs_list_props, lemma_enc_entries_snoc, lemma_enc_list_snoc,
    sizes_ok, KeyValue, SpecKey, SpecValue, Value,
};
use vstd::bytes::{
    lemma_auto_spec_u16_to_from_le_bytes, lemma_auto_spec_u32_to_from_le_bytes,
    lemma_auto_spec_u64_to_from_le_bytes, u16_to_le_bytes, u32_to_le_bytes, u64_to_le_bytes,
};
use vstd::slice::slice_subrange;

verus! {

/// Generate a trailing header: the length in the smallest fitting size
/// class, little-endian, followed by the prefix byte carrying that class.
/// Returns a scratch buffer and the number of valid bytes in it.
pub fn generate_header(prefix: u8, size_of_byte: usize) -> (r: ([u8; 9], usize))
    requires
        prefix % 4 == 0,
    ensures
        r.1 == prefix::header_bytes(prefix, size_of_byte as nat).len(),
        2 <= r.1 <= 9,
        r.0@.subrange(0, r.1 as int) == prefix::header_bytes(prefix, size_of_byte as nat),
{
    proof {
        lemma_auto_spec_u16_to_from_le_bytes();
        lemma_auto_spec_u32_to_from_le_bytes();
        lemma_auto_spec_u64_to_from_le_bytes();
    }
    if size_of_byte <= 0xFF {
        let buf: [u8; 9] = [size_of_byte as u8, prefix, 0, 0, 0, 0, 0, 0, 0];
        proof {
            assert(buf@.subrange(0, 2) =~= prefix::header_bytes(prefix, size_of_byte as nat));
        }
        (buf, 2)
    } else if size_of_byte <= 0xFFFF {
        let lb = u16_to_le_bytes(size_of_byte as u16);
        let buf: [u8; 9] = [lb[0], lb[1], prefix + 1, 0, 0, 0, 0, 0, 0];
        proof {
            assert(buf@.subrange(0, 3) =~= prefix::header_bytes(prefix, size_of_byte as nat));
        }
        (buf, 3)
    } else if size_of_byte <= 0xFFFF_FFFF {
        let lb = u32_to_le_bytes(size_of_byte as u32);
        let buf: [u8; 9] = [lb[0], lb[1], lb[2], lb[3], prefix + 2, 0, 0, 0, 0];
        proof {
            assert(buf@.subrange(0, 5) =~= prefix::header_bytes(prefix, size_of_byte as nat));
        }
        (buf, 5)
    } else {
        let lb = u64_to_le_bytes(size_of_byte as u64);
        let buf: [u8; 9] = [lb[0], lb[1], lb[2], lb[3], lb[4], lb[5], lb[6], lb[7], prefix + 3];
        proof {
            assert(buf@.subrange(0, 9) =~= prefix::header_bytes(prefix, size_of_byte as nat));
        }
        (buf, 9)
    }
}

/// Serializes values into a growing byte buffer in reverse-stream order.
pub struct ReverseSerializer {
    writer: Vec<u8>,
    size: usize,
    deep: usize,
}

impl ReverseSerializer {
    /// Everything written to the output so far, including what the buffer
    /// held when the serializer was created.
    pub closed spec fn sout(&self) -> Seq<u8> {
        self.writer@
    }

    /// Bytes emitted by this serializer.
    pub closed spec fn spec_size(&self) -> int {
        self.size as int
    }

    /// Nesting depth of open composites.
    pub closed spec fn depth(&self) -> int {
        self.deep as int
    }

    /// The byte counter never exceeds the bytes actually delivered.
    pub open spec fn wf(&self) -> bool {
        0 <= self.spec_size() <= self.sout().len()
    }

    /// A new serializer that appends to `writer`.
    pub fn new(writer: Vec<u8>) -> (s: Self)
        ensures
            s.wf(),
            s.sout() == writer@,
            s.spec_size() == 0,
            s.depth() == 0,
    {
        Self { writer, size: 0, deep: 0 }
    }

    /// Unwrap the output buffer from the serializer.
    pub fn into_inner(self) -> (w: Vec<u8>)
        ensures
            w@ == self.sout(),
    {
        self.writer
    }

    /// Bytes emitted so far.
    pub fn size(&self) -> (n: usize)
        ensures
            n as int == self.spec_size(),
    {
        self.size
    }

    /// Appends raw bytes and counts them.
    fn push_bytes(&mut self, bytes: &[u8])
        requires
            old(self).wf(),
        ensures
            final(self).wf(),
            final(self).sout() == old(self).sout() + bytes@,
            final(self).spec_size() == old(self).spec_size() + bytes@.len(),
            final(self).depth() == old(self).depth(),
    {
        self.writer.extend_from_slice(bytes);
        let _grown = self.writer.len();
        self.size = self.size + bytes.len();
    }

    /// Appends one byte and counts it.
    fn push_byte(&mut self, b: u8)
        requires
            old(self).wf(),
        ensures
            final(self).wf(),
            final(self).sout() == old(self).sout() + seq![b],
            final(self).spec_size() == old(self).spec_size() + 1,
            final(self).depth() == old(self).depth(),
    {
        self.writer.push(b);
        let _grown = self.writer.len();
        self.size = self.size + 1;
    }

    /// Writes the TON self-describe tag to the stream.
    ///
    /// Tagging lets a content sniffer recognize the format; a decoder
    /// skips the tag when it is present.
    pub fn self_describe(&mut self) -> (r: Result<(), Error>)
        requires
            old(self).wf(),
        ensures
            final(self).wf(),
            r is Ok,
            final(self).sout() == old(self).sout() + prefix::tag_seq(),
            final(self).spec_size() == old(self).spec_size() + 4,
            final(self).depth() == old(self).depth(),
    {
        let tag: [u8; 4] = prefix::TON_V1_REV_TAG;
        self.push_bytes(tag.as_slice());
        proof {
            assert(tag@ =~= prefix::tag_seq());
        }
        Ok(())
    }

    /// Appends a trailing header for `family` and payload length `len`.
    fn write_header(&mut self, family: u8, len: usize)
        requires
            old(self).wf(),
            family % 4 == 0,
        ensures
            final(self).wf(),
            final(self).sout() == old(self).sout() + prefix::header_bytes(family, len as nat),
            final(self).spec_size() == old(self).spec_size() + prefix::header_bytes(
                family,
                len as nat,
            ).len(),
            final(self).depth() == old(self).depth(),
    {
        let (buf, n) = generate_header(family, len);
        let h = slice_subrange(buf.as_slice(), 0, n);
        self.push_bytes(h);
    }

    /// Emits a boolean: its value lives in the prefix byte itself.
    pub fn serialize_bool(&mut self, v: bool) -> (r: Result<(), Error>)
        requires
            old(self).wf(),
        ensures
            final(self).wf(),
            r is Ok,
            final(self).sout() == old(self).sout() + enc(SpecValue::Bool(v)),
            final(self).spec_size() == old(self).spec_size() + 1,
            final(self).depth() == old(self).depth(),
    {
        self.push_byte(if v {
            5u8
        } else {
            4u8
        });
        Ok(())
    }

    /// Emits a one-byte signed integer: the value, then `INT` with the
    /// one-byte size class.
    pub fn serialize_i8(&mut self, v: i8) -> (r: Result<(), Error>)
        requires
            old(self).wf(),
        ensures
            final(self).wf(),
            r is Ok,
            final(self).sout() == old(self).sout() + enc(SpecValue::Int(Int::I8(v))),
            final(self).spec_size() == old(self).spec_size() + 2,
            final(self).depth() == old(self).depth(),
    {
        let bits: u8 = if v >= 0 {
            v as u8
        } else {
            ((v as i16) + 0x100) as u8
        };
        self.push_byte(bits);
        self.push_byte(0x08);
        proof {
            assert(old(self).sout() + seq![bits] + seq![0x08u8] =~= old(self).sout() + enc(
                SpecValue::Int(Int::I8(v)),
            ));
        }
        Ok(())
    }

    /// Emits a two-byte signed integer, little-endian, then its header.
    pub fn serialize_i16(&mut self, v: i16) -> (r: Result<(), Error>)
        requires
            old(self).wf(),
        ensures
            final(self).wf(),
            r is Ok,
            final(self).sout() == old(self).sout() + enc(SpecValue::Int(Int::I16(v))),
            final(self).spec_size() == old(self).spec_size() + 3,
            final(self).depth() == old(self).depth(),
    {
        let bits: u16 = if v >= 0 {
            v as u16
        } else {
            ((v as i32) + 0x10000) as u16
        };
        let lb = u16_to_le_bytes(bits);
        self.push_bytes(lb.as_slice());
        self.push_byte(0x09);
        proof {
            lemma_auto_spec_u16_to_from_le_bytes();
            assert(old(self).sout() + lb@ + seq![0x09u8] =~= old(self).sout() + enc(
                SpecValue::Int(Int::I16(v)),
            ));
        }
        Ok(())
    }

    /// Emits a four-byte signed integer, little-endian, then its header.
    pub fn serialize_i32(&mut self, v: i32) -> (r: Result<(), Error>)
        requires
            old(self).wf(),
        ensures
            final(self).wf(),
            r is Ok,
            final(self).sout() == old(self).sout() + enc(SpecValue::Int(Int::I32(v))),
            final(self).spec_size() == old(self).spec_size() + 5,
            final(self).depth() == old(self).depth(),
    {
        let bits: u32 = if v >= 0 {
            v as u32
        } else {
            ((v as i64) + 0x1_0000_0000) as u32
        };
        let lb = u32_to_le_bytes(bits);
        self.push_bytes(lb.as_slice());
        self.push_byte(0x0A);
        proof {
            lemma_auto_spec_u32_to_from_le_bytes();
            assert(old(self).sout() + lb@ + seq![0x0Au8] =~= old(self).sout() + enc(
                SpecValue::Int(Int::I32(v)),
            ));
        }
        Ok(())
    }

    /// Emits an eight-byte signed integer, little-endian, then its header.
    pub fn serialize_i64(&mut self, v: i64) -> (r: Result<(), Error>)
        requires
            old(self).wf(),
        ensures
            final(self).wf(),
            r is Ok,
            final(self).sout() == old(self).sout() + enc(SpecValue::Int(Int::I64(v))),
            final(self).spec_size() == old(self).spec_size() + 9,
            final(self).depth() == old(self).depth(),
    {
        let bits: u64 = if v >= 0 {
            v as u64
        } else {
            ((v as i128) + 0x1_0000_0000_0000_0000) as u64
        };
        let lb = u64_to_le_bytes(bits);
        self.push_bytes(lb.as_slice());
        self.push_byte(0x0B);
        proof {
            lemma_auto_spec_u64_to_from_le_bytes();
            assert(old(self).sout() + lb@ + seq![0x0Bu8] =~= old(self).sout() + enc(
                SpecValue::Int(Int::I64(v)),
            ));
        }
        Ok(())
    }

    /// Emits a one-byte unsigned integer, then its header.
    pub fn serialize_u8(&mut self, v: u8) -> (r: Result<(), Error>)
        requires
            old(self).wf(),
        ensures
            final(self).wf(),
            r is Ok,
            final(self).sout() == old(self).sout() + enc(SpecValue::UInt(UInt::U8(v))),
            final(self).spec_size() == old(self).spec_size() + 2,
            final(self).depth() == old(self).depth(),
    {
        self.push_byte(v);
        self.push_byte(0x0C);
        proof {
            assert(old(self).sout() + seq![v] + seq![0x0Cu8] =~= old(self).sout() + enc(
                SpecValue::UInt(UInt::U8(v)),
            ));
        }
        Ok(())
    }

    /// Emits a two-byte unsigned integer, little-endian, then its header.
    pub fn serialize_u16(&mut self, v: u16) -> (r: Result<(), Error>)
        requires
            old(self).wf(),
        ensures
            final(self).wf(),
            r is Ok,
            final(self).sout() == old(self).sout() + enc(SpecValue::UInt(UInt::U16(v))),
            final(self).spec_size() == old(self).spec_size() + 3,
            final(self).depth() == old(self).depth(),
    {
        let lb = u16_to_le_bytes(v);
        self.push_bytes(lb.as_slice());
        self.push_byte(0x0D);
        proof {
            lemma_auto_spec_u16_to_from_le_bytes();
            assert(old(self).sout() + lb@ + seq![0x0Du8] =~= old(self).sout() + enc(
                SpecValue::UInt(UInt::U16(v)),
            ));
        }
        Ok(())
    }

    /// Emits a four-byte unsigned integer, little-endian, then its header.
    pub fn serialize_u32(&mut self, v: u32) -> (r: Result<(), Error>)
        requires
            old(self).wf(),
        ensures
            final(self).wf(),
            r is Ok,
            final(self).sout() == old(self).sout() + enc(SpecValue::UInt(UInt::U32(v))),
            final(self).spec_size() == old(self).spec_size() + 5,
            final(self).depth() == old(self).depth(),
    {
        let lb = u32_to_le_bytes(v);
        self.push_bytes(lb.as_slice());
        self.push_byte(0x0E);
        proof {
            lemma_auto_spec_u32_to_from_le_bytes();
            assert(old(self).sout() + lb@ + seq![0x0Eu8] =~= old(self).sout() + enc(
                SpecValue::UInt(UInt::U32(v)),
            ));
        }
        Ok(())
    }

    /// Emits an eight-byte unsigned integer, little-endian, then its header.
    pub fn serialize_u64(&mut self, v: u64) -> (r: Result<(), Error>)
        requires
            old(self).wf(),
        ensures
            final(self).wf(),
            r is Ok,
            final(self).sout() == old(self).sout() + enc(SpecValue::UInt(UInt::U64(v))),
            final(self).spec_size() == old(self).spec_size() + 9,
            final(self).depth() == old(self).depth(),
    {
        let lb = u64_to_le_bytes(v);
        self.push_bytes(lb.as_slice());
        self.push_byte(0x0F);
        proof {
            lemma_auto_spec_u64_to_from_le_bytes();
            assert(old(self).sout() + lb@ + seq![0x0Fu8] =~= old(self).sout() + enc(
                SpecValue::UInt(UInt::U64(v)),
            ));
        }
        Ok(())
    }

    /// Emits a half-precision float given as its IEEE 754 bit pattern.
    pub fn serialize_f16(&mut self, bits: u16) -> (r: Result<(), Error>)
        requires
            old(self).wf(),
        ensures
            final(self).wf(),
            r is Ok,
            final(self).sout() == old(self).sout() + enc(SpecValue::Float(Float::F16(bits))),
            final(self).spec_size() == old(self).spec_size() + 3,
            final(self).depth() == old(self).depth(),
    {
        let lb = u16_to_le_bytes(bits);
        self.push_bytes(lb.as_slice());
        self.push_byte(0x11);
        proof {
            lemma_auto_spec_u16_to_from_le_bytes();
            assert(old(self).sout() + lb@ + seq![0x11u8] =~= old(self).sout() + enc(
                SpecValue::Float(Float::F16(bits)),
            ));
        }
        Ok(())
    }

    /// Emits a single-precision float given as its IEEE 754 bit pattern.
    pub fn serialize_f32(&mut self, bits: u32) -> (r: Result<(), Error>)
        requires
            old(self).wf(),
        ensures
            final(self).wf(),
            r is Ok,
            final(self).sout() == old(self).sout() + enc(SpecValue::Float(Float::F32(bits))),
            final(self).spec_size() == old(self).spec_size() + 5,
            final(self).depth() == old(self).depth(),
    {
        let lb = u32_to_le_bytes(bits);
        self.push_bytes(lb.as_slice());
        self.push_byte(0x12);
        proof {
            lemma_auto_spec_u32_to_from_le_bytes();
            assert(old(self).sout() + lb@ + seq![0x12u8] =~= old(self).sout() + enc(
                SpecValue::Float(Float::F32(bits)),
            ));
        }
        Ok(())
    }

    /// Emits a double-precision float given as its IEEE 754 bit pattern.
    pub fn serialize_f64(&mut self, bits: u64) -> (r: Result<(), Error>)
        requires
            old(self).wf(),
        ensures
            final(self).wf(),
            r is Ok,
            final(self).sout() == old(self).sout() + enc(SpecValue::Float(Float::F64(bits))),
            final(self).spec_size() == old(self).spec_size() + 9,
            final(self).depth() == old(self).depth(),
    {
        let lb = u64_to_le_bytes(bits);
        self.push_bytes(lb.as_slice());
        self.push_byte(0x13);
        proof {
            lemma_auto_spec_u64_to_from_le_bytes();
            assert(old(self).sout() + lb@ + seq![0x13u8] =~= old(self).sout() + enc(
                SpecValue::Float(Float::F64(bits)),
            ));
        }
        Ok(())
    }

    /// Emits a string: its UTF-8 bytes, then a STRING header.
    pub fn serialize_str(&mut self, v: &str) -> (r: Result<(), Error>)
        requires
            old(self).wf(),
        ensures
            final(self).wf(),
            r is Ok,
            final(self).sout() == old(self).sout() + enc(SpecValue::Str(v@)),
            final(self).spec_size() == old(self).spec_size() + enc(SpecValue::Str(v@)).len(),
            final(self).depth() == old(self).depth(),
    {
        let bytes = v.as_bytes();
        let n = bytes.len();
        self.push_bytes(bytes);
        self.write_header(prefix::STRING, n);
        proof {
            assert(final(self).sout() =~= old(self).sout() + enc(SpecValue::Str(v@)));
        }
        Ok(())
    }

    /// Emits a character as a one-character string.
    pub fn serialize_char(&mut self, v: char) -> (r: Result<(), Error>)
        requires
            old(self).wf(),
        ensures
            final(self).wf(),
            r is Ok,
            final(self).sout() == old(self).sout() + enc(SpecValue::Str(seq![v])),
            final(self).spec_size() == old(self).spec_size() + enc(SpecValue::Str(seq![v])).len(),
            final(self).depth() == old(self).depth(),
    {
        let s = char_to_string(v);
        self.serialize_str(s.as_str())
    }

    /// Emits a byte string: the bytes, then a BYTES header.
    pub fn serialize_bytes(&mut self, v: &[u8]) -> (r: Result<(), Error>)
        requires
            old(self).wf(),
        ensures
            final(self).wf(),
            r is Ok,
            final(self).sout() == old(self).sout() + enc(SpecValue::Bytes(v@)),
            final(self).spec_size() == old(self).spec_size() + enc(SpecValue::Bytes(v@)).len(),
            final(self).depth() == old(self).depth(),
    {
        let n = v.len();
        self.push_bytes(v);
        self.write_header(prefix::BYTES, n);
        proof {
            assert(final(self).sout() =~= old(self).sout() + enc(SpecValue::Bytes(v@)));
        }
        Ok(())
    }

    /// Emits the single NONE prefix byte.
    pub fn serialize_none(&mut self) -> (r: Result<(), Error>)
        requires
            old(self).wf(),
        ensures
            final(self).wf(),
            r is Ok,
            final(self).sout() == old(self).sout() + enc(SpecValue::Null),
            final(self).spec_size() == old(self).spec_size() + 1,
            final(self).depth() == old(self).depth(),
    {
        self.push_byte(0x00);
        proof {
            assert(old(self).sout() + seq![0x00u8] =~= old(self).sout() + enc(SpecValue::Null));
        }
        Ok(())
    }

    /// Emits the single UNDEFINED prefix byte.
    pub fn serialize_undefined(&mut self) -> (r: Result<(), Error>)
        requires
            old(self).wf(),
        ensures
            final(self).wf(),
            r is Ok,
            final(self).sout() == old(self).sout() + enc(SpecValue::Undefined),
            final(self).spec_size() == old(self).spec_size() + 1,
            final(self).depth() == old(self).depth(),
    {
        self.push_byte(0xFC);
        proof {
            assert(old(self).sout() + seq![0xFCu8] =~= old(self).sout() + enc(
                SpecValue::Undefined,
            ));
        }
        Ok(())
    }

    /// The unit value is emitted as NONE.
    pub fn serialize_unit(&mut self) -> (r: Result<(), Error>)
        requires
            old(self).wf(),
        ensures
            final(self).wf(),
            r is Ok,
            final(self).sout() == old(self).sout() + enc(SpecValue::Null),
            final(self).spec_size() == old(self).spec_size() + 1,
            final(self).depth() == old(self).depth(),
    {
        self.serialize_none()
    }

    /// A unit struct is emitted as NONE; its name is not recorded.
    pub fn serialize_unit_struct(&mut self, name: &str) -> (r: Result<(), Error>)
        requires
            old(self).wf(),
        ensures
            final(self).wf(),
            r is Ok,
            final(self).sout() == old(self).sout() + enc(SpecValue::Null),
            final(self).spec_size() == old(self).spec_size() + 1,
            final(self).depth() == old(self).depth(),
    {
        let _ = name;
        self.serialize_none()
    }

    /// A unit variant is emitted as its name, a STRING.
    pub fn serialize_unit_variant(
        &mut self,
        name: &str,
        variant_index: u32,
        variant: &str,
    ) -> (r: Result<(), Error>)
        requires
            old(self).wf(),
        ensures
            final(self).wf(),
            r is Ok,
            final(self).sout() == old(self).sout() + enc(SpecValue::Str(variant@)),
            final(self).spec_size() == old(self).spec_size() + enc(SpecValue::Str(variant@)).len(),
            final(self).depth() == old(self).depth(),
    {
        let _ = name;
        let _ = variant_index;
        self.serialize_str(variant)
    }

    /// Emits a UUID: its sixteen octets, then the UUID prefix.
    pub fn serialize_uuid(&mut self, v: &[u8; 16]) -> (r: Result<(), Error>)
        requires
            old(self).wf(),
        ensures
            final(self).wf(),
            r is Ok,
            final(self).sout() == old(self).sout() + enc(SpecValue::Uuid(v@)),
            final(self).spec_size() == old(self).spec_size() + 17,
            final(self).depth() == old(self).depth(),
    {
        self.push_bytes(v.as_slice());
        self.push_byte(0x1C);
        proof {
            assert(old(self).sout() + v@ + seq![0x1Cu8] =~= old(self).sout() + enc(
                SpecValue::Uuid(v@),
            ));
        }
        Ok(())
    }

    /// Emits a date-time given as its RFC 3339 text: the UTF-8 bytes, then
    /// a DATETIME header.
    pub fn serialize_datetime(&mut self, rfc3339: &str) -> (r: Result<(), Error>)
        requires
            old(self).wf(),
        ensures
            final(self).wf(),
            r is Ok,
            final(self).sout() == old(self).sout() + enc(SpecValue::DateTime(rfc3339@)),
            final(self).spec_size() == old(self).spec_size() + enc(
                SpecValue::DateTime(rfc3339@),
            ).len(),
            final(self).depth() == old(self).depth(),
    {
        let bytes = rfc3339.as_bytes();
        let n = bytes.len();
        self.push_bytes(bytes);
        self.write_header(prefix::DATETIME, n);
        proof {
            assert(final(self).sout() =~= old(self).sout() + enc(SpecValue::DateTime(rfc3339@)));
        }
        Ok(())
    }

    /// Emits a POSIX timestamp: eight little-endian bytes, then the
    /// TIMESTAMP prefix with the eight-byte size class.
    pub fn serialize_timestamp(&mut self, v: i64) -> (r: Result<(), Error>)
        requires
            old(self).wf(),
        ensures
            final(self).wf(),
            r is Ok,
            final(self).sout() == old(self).sout() + enc(SpecValue::Timestamp(v)),
            final(self).spec_size() == old(self).spec_size() + 9,
            final(self).depth() == old(self).depth(),
    {
        let bits: u64 = if v >= 0 {
            v as u64
        } else {
            ((v as i128) + 0x1_0000_0000_0000_0000) as u64
        };
        let lb = u64_to_le_bytes(bits);
        self.push_bytes(lb.as_slice());
        self.push_byte(0x27);
        proof {
            lemma_auto_spec_u64_to_from_le_bytes();
            assert(old(self).sout() + lb@ + seq![0x27u8] =~= old(self).sout() + enc(
                SpecValue::Timestamp(v),
            ));
        }
        Ok(())
    }

    /// Emits a duration in nanoseconds: eight little-endian bytes, then
    /// the DURATION prefix with the eight-byte size class.
    pub fn serialize_duration(&mut self, nanos: i64) -> (r: Result<(), Error>)
        requires
            old(self).wf(),
        ensures
            final(self).wf(),
            r is Ok,
            final(self).sout() == old(self).sout() + enc(SpecValue::Duration(nanos)),
            final(self).spec_size() == old(self).spec_size() + 9,
            final(self).depth() == old(self).depth(),
    {
        let bits: u64 = if nanos >= 0 {
            nanos as u64
        } else {
            ((nanos as i128) + 0x1_0000_0000_0000_0000) as u64
        };
        let lb = u64_to_le_bytes(bits);
        self.push_bytes(lb.as_slice());
        self.push_byte(0x2B);
        proof {
            lemma_auto_spec_u64_to_from_le_bytes();
            assert(old(self).sout() + lb@ + seq![0x2Bu8] =~= old(self).sout() + enc(
                SpecValue::Duration(nanos),
            ));
        }
        Ok(())
    }

    /// Emits wrapped JSON given as its serialized text: the UTF-8 bytes,
    /// then a WRAPPED_JSON header.
    pub fn serialize_wrapped_json(&mut self, json: &str) -> (r: Result<(), Error>)
        requires
            old(self).wf(),
        ensures
            final(self).wf(),
            r is Ok,
            final(self).sout() == old(self).sout() + enc(SpecValue::Json(json@)),
            final(self).spec_size() == old(self).spec_size() + enc(SpecValue::Json(json@)).len(),
            final(self).depth() == old(self).depth(),
    {
        let bytes = json.as_bytes();
        let n = bytes.len();
        self.push_bytes(bytes);
        self.write_header(prefix::WRAPPED_JSON, n);
        proof {
            assert(final(self).sout() =~= old(self).sout() + enc(SpecValue::Json(json@)));
        }
        Ok(())
    }

    /// Emits `v` zero bytes and a PADDING header; zero padding emits
    /// nothing at all, not even a prefix.
    pub fn serialize_padding(&mut self, v: usize) -> (r: Result<(), Error>)
        requires
            old(self).wf(),
        ensures
            final(self).wf(),
            r is Ok,
            final(self).sout() == old(self).sout() + prefix::pad_enc(v as nat),
            final(self).spec_size() == old(self).spec_size() + prefix::pad_enc(v as nat).len(),
            final(self).depth() == old(self).depth(),
    {
        if v == 0 {
            proof {
                assert(old(self).sout() + prefix::pad_enc(0) =~= old(self).sout());
            }
            return Ok(());
        }
        let buf = zeros(v);
        self.push_bytes(buf.as_slice());
        self.write_header(prefix::PADDING, v);
        proof {
            assert(final(self).sout() =~= old(self).sout() + prefix::pad_enc(v as nat));
        }
        Ok(())
    }
}

/// A vector of `n` zero bytes.
fn zeros(n: usize) -> (v: Vec<u8>)
    ensures
        v@ == prefix::zero_bytes(n as nat),
{
    let mut v: Vec<u8> = Vec::new();
    let mut i: usize = 0;
    while i < n
        invariant
            i <= n,
            v@ =~= prefix::zero_bytes(i as nat),
        decreases n - i,
    {
        v.push(0);
        i = i + 1;
        proof {
            assert(v@ =~= prefix::zero_bytes(i as nat));
        }
    }
    proof {
        assert(v@ =~= prefix::zero_bytes(n as nat));
    }
    v
}

/// Relies on char::to_string: a string holding exactly the one character.
#[verifier::external_body]
fn char_to_string(c: char) -> (s: String)
    ensures
        s@ == seq![c],
{
    c.to_string()
}

/// An open composite: it remembers where the composite's payload began
/// and, for variant composites, the variant name to close with.
pub struct Compound {
    start_pos: usize,
    variant_name: Option<String>,
}

impl Compound {
    /// Byte offset at which this composite's payload begins.
    pub closed spec fn spec_start(&self) -> int {
        self.start_pos as int
    }

    /// The variant name, for variant composites.
    pub closed spec fn spec_variant(&self) -> Option<String> {
        self.variant_name
    }

    /// Opens a plain composite: remembers the current offset and deepens
    /// the nesting by one.
    pub fn new(ser: &mut ReverseSerializer) -> (c: Compound)
        requires
            old(ser).wf(),
            old(ser).depth() < usize::MAX,
        ensures
            final(ser).wf(),
            final(ser).sout() == old(ser).sout(),
            final(ser).spec_size() == old(ser).spec_size(),
            final(ser).depth() == old(ser).depth() + 1,
            c.spec_start() == old(ser).spec_size(),
            c.spec_variant() is None,
    {
        let start_pos = ser.size;
        ser.deep = ser.deep + 1;
        Compound { start_pos, variant_name: Option::None }
    }

    /// Opens a variant composite: the inner frame and the outer object
    /// around the variant name make two nesting levels.
    pub fn with_variant(ser: &mut ReverseSerializer, variant_name: &str) -> (c: Compound)
        requires
            old(ser).wf(),
            old(ser).depth() < usize::MAX - 1,
        ensures
            final(ser).wf(),
            final(ser).sout() == old(ser).sout(),
            final(ser).spec_size() == old(ser).spec_size(),
            final(ser).depth() == old(ser).depth() + 2,
            c.spec_start() == old(ser).spec_size(),
            c.spec_variant() matches Some(n) && n@ == variant_name@,
    {
        let start_pos = ser.size;
        ser.deep = ser.deep + 2;
        Compound { start_pos, variant_name: Option::Some(variant_name.to_owned()) }
    }
}

/// What closing a variant composite appends after its payload: the inner
/// frame header, the variant name as a STRING, and the outer OBJECT
/// header spanning all of it.
pub open spec fn variant_close(inner_family: u8, payload_len: nat, name: Seq<char>) -> Seq<u8> {
    let ih = prefix::header_bytes(inner_family, payload_len);
    let ks = enc(SpecValue::Str(name));
    ih + ks + prefix::header_bytes(prefix::OBJECT, payload_len + ih.len() + ks.len())
}

impl ReverseSerializer {
    /// Closes a sequence-like composite with an ARRAY header spanning the
    /// bytes written since it was opened.
    pub fn end_seq(&mut self, c: Compound) -> (r: Result<(), Error>)
        requires
            old(self).wf(),
            old(self).depth() >= 1,
            0 <= c.spec_start() <= old(self).spec_size(),
        ensures
            final(self).wf(),
            r is Ok,
            final(self).sout() == old(self).sout() + prefix::header_bytes(
                prefix::ARRAY,
                (old(self).spec_size() - c.spec_start()) as nat,
            ),
            final(self).spec_size() == old(self).spec_size() + prefix::header_bytes(
                prefix::ARRAY,
                (old(self).spec_size() - c.spec_start()) as nat,
            ).len(),
            final(self).depth() == old(self).depth() - 1,
    {
        self.deep = self.deep - 1;
        let seq_size = self.size - c.start_pos;
        self.write_header(prefix::ARRAY, seq_size);
        Ok(())
    }

    /// Closes a map-like composite with an OBJECT header spanning the
    /// bytes written since it was opened.
    pub fn end_map(&mut self, c: Compound) -> (r: Result<(), Error>)
        requires
            old(self).wf(),
            old(self).depth() >= 1,
            0 <= c.spec_start() <= old(self).spec_size(),
        ensures
            final(self).wf(),
            r is Ok,
            final(self).sout() == old(self).sout() + prefix::header_bytes(
                prefix::OBJECT,
                (old(self).spec_size() - c.spec_start()) as nat,
            ),
            final(self).spec_size() == old(self).spec_size() + prefix::header_bytes(
                prefix::OBJECT,
                (old(self).spec_size() - c.spec_start()) as nat,
            ).len(),
            final(self).depth() == old(self).depth() - 1,
    {
        self.deep = self.deep - 1;
        let seq_size = self.size - c.start_pos;
        self.write_header(prefix::OBJECT, seq_size);
        Ok(())
    }

    /// Closes a tuple-variant composite: ARRAY header over the fields,
    /// the variant name, then the outer OBJECT header.
    pub fn end_tuple_variant(&mut self, c: Compound) -> (r: Result<(), Error>)
        requires
            old(self).wf(),
            old(self).depth() >= 2,
            0 <= c.spec_start() <= old(self).spec_size(),
            c.spec_variant() is Some,
        ensures
            final(self).wf(),
            r is Ok,
            final(self).sout() == old(self).sout() + variant_close(
                prefix::ARRAY,
                (old(self).spec_size() - c.spec_start()) as nat,
                c.spec_variant()->Some_0@,
            ),
            final(self).spec_size() == old(self).spec_size() + variant_close(
                prefix::ARRAY,
                (old(self).spec_size() - c.spec_start()) as nat,
                c.spec_variant()->Some_0@,
            ).len(),
            final(self).depth() == old(self).depth() - 2,
    {
        self.close_variant(c, prefix::ARRAY)
    }

    /// Closes a struct-variant composite: OBJECT header over the fields,
    /// the variant name, then the outer OBJECT header.
    pub fn end_struct_variant(&mut self, c: Compound) -> (r: Result<(), Error>)
        requires
            old(self).wf(),
            old(self).depth() >= 2,
            0 <= c.spec_start() <= old(self).spec_size(),
            c.spec_variant() is Some,
        ensures
            final(self).wf(),
            r is Ok,
            final(self).sout() == old(self).sout() + variant_close(
                prefix::OBJECT,
                (old(self).spec_size() - c.spec_start()) as nat,
                c.spec_variant()->Some_0@,
            ),
            final(self).spec_size() == old(self).spec_size() + variant_close(
                prefix::OBJECT,
                (old(self).spec_size() - c.spec_start()) as nat,
                c.spec_variant()->Some_0@,
            ).len(),
            final(self).depth() == old(self).depth() - 2,
    {
        self.close_variant(c, prefix::OBJECT)
    }

    /// Shared closing of a variant composite.
    fn close_variant(&mut self, c: Compound, inner_family: u8) -> (r: Result<(), Error>)
        requires
            old(self).wf(),
            old(self).depth() >= 2,
            0 <= c.spec_start() <= old(self).spec_size(),
            c.spec_variant() is Some,
            inner_family % 4 == 0,
        ensures
            final(self).wf(),
            r is Ok,
            final(self).sout() == old(self).sout() + variant_close(
                inner_family,
                (old(self).spec_size() - c.spec_start()) as nat,
                c.spec_variant()->Some_0@,
            ),
            final(self).spec_size() == old(self).spec_size() + variant_close(
                inner_family,
                (old(self).spec_size() - c.spec_start()) as nat,
                c.spec_variant()->Some_0@,
            ).len(),
            final(self).depth() == old(self).depth() - 2,
    {
        self.deep = self.deep - 2;
        let payload = self.size - c.start_pos;
        self.write_header(inner_family, payload);
        let name = match c.variant_name {
            Option::Some(n) => n,
            Option::None => {
                proof {
                    assert(false);
                }
                String::new()
            },
        };
        let _ = self.serialize_str(name.as_str());
        let outer = self.size - c.start_pos;
        self.write_header(prefix::OBJECT, outer);
        proof {
            assert(final(self).sout() =~= old(self).sout() + variant_close(
                inner_family,
                (old(self).spec_size() - c.spec_start()) as nat,
                c.spec_variant()->Some_0@,
            ));
        }
        Ok(())
    }

    /// Opens a sequence; elements follow, then `end_seq`.
    pub fn serialize_seq(&mut self, len: Option<usize>) -> (r: Result<Compound, Error>)
        requires
            old(self).wf(),
            old(self).depth() < usize::MAX,
        ensures
            final(self).wf(),
            r matches Ok(c) && c.spec_start() == old(self).spec_size() && c.spec_variant()
                is None,
            final(self).sout() == old(self).sout(),
            final(self).spec_size() == old(self).spec_size(),
            final(self).depth() == old(self).depth() + 1,
    {
        let _ = len;
        Ok(Compound::new(self))
    }

    /// Opens a tuple; it closes as an ARRAY.
    pub fn serialize_tuple(&mut self, len: usize) -> (r: Result<Compound, Error>)
        requires
            old(self).wf(),
            old(self).depth() < usize::MAX,
        ensures
            final(self).wf(),
            r matches Ok(c) && c.spec_start() == old(self).spec_size() && c.spec_variant()
                is None,
            final(self).sout() == old(self).sout(),
            final(self).spec_size() == old(self).spec_size(),
            final(self).depth() == old(self).depth() + 1,
    {
        let _ = len;
        Ok(Compound::new(self))
    }

    /// Opens a tuple struct; it closes as an ARRAY.
    pub fn serialize_tuple_struct(&mut self, name: &str, len: usize) -> (r: Result<
        Compound,
        Error,
    >)
        requires
            old(self).wf(),
            old(self).depth() < usize::MAX,
        ensures
            final(self).wf(),
            r matches Ok(c) && c.spec_start() == old(self).spec_size() && c.spec_variant()
                is None,
            final(self).sout() == old(self).sout(),
            final(self).spec_size() == old(self).spec_size(),
            final(self).depth() == old(self).depth() + 1,
    {
        let _ = name;
        let _ = len;
        Ok(Compound::new(self))
    }

    /// Opens a tuple variant; it closes with `end_tuple_variant`.
    pub fn serialize_tuple_variant(
        &mut self,
        name: &str,
        variant_index: u32,
        variant: &str,
        len: usize,
    ) -> (r: Result<Compound, Error>)
        requires
            old(self).wf(),
            old(self).depth() < usize::MAX - 1,
        ensures
            final(self).wf(),
            r matches Ok(c) && c.spec_start() == old(self).spec_size() && (c.spec_variant()
                matches Some(n) && n@ == variant@),
            final(self).sout() == old(self).sout(),
            final(self).spec_size() == old(self).spec_size(),
            final(self).depth() == old(self).depth() + 2,
    {
        let _ = name;
        let _ = variant_index;
        let _ = len;
        Ok(Compound::with_variant(self, variant))
    }

    /// Opens a map; entries follow (value before key), then `end_map`.
    pub fn serialize_map(&mut self, len: Option<usize>) -> (r: Result<Compound, Error>)
        requires
            old(self).wf(),
            old(self).depth() < usize::MAX,
        ensures
            final(self).wf(),
            r matches Ok(c) && c.spec_start() == old(self).spec_size() && c.spec_variant()
                is None,
            final(self).sout() == old(self).sout(),
            final(self).spec_size() == old(self).spec_size(),
            final(self).depth() == old(self).depth() + 1,
    {
        let _ = len;
        Ok(Compound::new(self))
    }

    /// Opens a struct; fields follow, then `end_map`.
    pub fn serialize_struct(&mut self, name: &str, len: usize) -> (r: Result<Compound, Error>)
        requires
            old(self).wf(),
            old(self).depth() < usize::MAX,
        ensures
            final(self).wf(),
            r matches Ok(c) && c.spec_start() == old(self).spec_size() && c.spec_variant()
                is None,
            final(self).sout() == old(self).sout(),
            final(self).spec_size() == old(self).spec_size(),
            final(self).depth() == old(self).depth() + 1,
    {
        let _ = name;
        let _ = len;
        Ok(Compound::new(self))
    }

    /// Opens a struct variant; it closes with `end_struct_variant`.
    pub fn serialize_struct_variant(
        &mut self,
        name: &str,
        variant_index: u32,
        variant: &str,
        len: usize,
    ) -> (r: Result<Compound, Error>)
        requires
            old(self).wf(),
            old(self).depth() < usize::MAX - 1,
        ensures
            final(self).wf(),
            r matches Ok(c) && c.spec_start() == old(self).spec_size() && (c.spec_variant()
                matches Some(n) && n@ == variant@),
            final(self).sout() == old(self).sout(),
            final(self).spec_size() == old(self).spec_size(),
            final(self).depth() == old(self).depth() + 2,
    {
        let _ = name;
        let _ = variant_index;
        let _ = len;
        Ok(Compound::with_variant(self, variant))
    }

    /// Emits one struct field: the value first, then the field name, so a
    /// reverse reader meets the name before the value.
    pub fn serialize_field(&mut self, key: &str, value: &Value) -> (r: Result<(), Error>)
        requires
            old(self).wf(),
        ensures
            final(self).wf(),
            r is Ok,
            final(self).sout() == old(self).sout() + enc(abs_value(*value)) + enc(
                SpecValue::Str(key@),
            ),
            final(self).spec_size() == old(self).spec_size() + enc(abs_value(*value)).len() + enc(
                SpecValue::Str(key@),
            ).len(),
            final(self).depth() == old(self).depth(),
            sizes_ok(abs_value(*value)),
    {
        let _ = self.serialize_value(value);
        let _ = self.serialize_str(key);
        Ok(())
    }

    /// Emits one map entry: the value first, then the key.
    pub fn serialize_entry(&mut self, key: &Value, value: &Value) -> (r: Result<(), Error>)
        requires
            old(self).wf(),
        ensures
            final(self).wf(),
            r is Ok,
            final(self).sout() == old(self).sout() + enc(abs_value(*value)) + enc(
                abs_value(*key),
            ),
            final(self).spec_size() == old(self).spec_size() + enc(abs_value(*value)).len() + enc(
                abs_value(*key),
            ).len(),
            final(self).depth() == old(self).depth(),
            sizes_ok(abs_value(*value)),
            sizes_ok(abs_value(*key)),
    {
        let _ = self.serialize_value(value);
        let _ = self.serialize_value(key);
        Ok(())
    }

    /// A present option serializes as its content, transparently.
    pub fn serialize_some(&mut self, value: &Value) -> (r: Result<(), Error>)
        requires
            old(self).wf(),
        ensures
            final(self).wf(),
            r is Ok,
            final(self).sout() == old(self).sout() + enc(abs_value(*value)),
            final(self).spec_size() == old(self).spec_size() + enc(abs_value(*value)).len(),
            final(self).depth() == old(self).depth(),
            sizes_ok(abs_value(*value)),
    {
        self.serialize_value(value)
    }

    /// A newtype struct serializes as its content, transparently.
    pub fn serialize_newtype_struct(&mut self, name: &str, value: &Value) -> (r: Result<
        (),
        Error,
    >)
        requires
            old(self).wf(),
        ensures
            final(self).wf(),
            r is Ok,
            final(self).sout() == old(self).sout() + enc(abs_value(*value)),
            final(self).spec_size() == old(self).spec_size() + enc(abs_value(*value)).len(),
            final(self).depth() == old(self).depth(),
            sizes_ok(abs_value(*value)),
    {
        let _ = name;
        self.serialize_value(value)
    }

    /// A newtype variant serializes as a one-field OBJECT: the content,
    /// the variant name, and an OBJECT header spanning both.
    pub fn serialize_newtype_variant(
        &mut self,
        name: &str,
        variant_index: u32,
        variant: &str,
        value: &Value,
    ) -> (r: Result<(), Error>)
        requires
            old(self).wf(),
        ensures
            final(self).wf(),
            r is Ok,
            final(self).sout() == old(self).sout() + enc(
                SpecValue::Object(seq![(SpecKey::Str(variant@), abs_value(*value))]),
            ),
            final(self).spec_size() == old(self).spec_size() + enc(
                SpecValue::Object(seq![(SpecKey::Str(variant@), abs_value(*value))]),
            ).len(),
            final(self).depth() == old(self).depth(),
    {
        let _ = name;
        let _ = variant_index;
        let start_pos = self.size;
        let _ = self.serialize_value(value);
        let _ = self.serialize_str(variant);
        let obj_size = self.size - start_pos;
        self.write_header(prefix::OBJECT, obj_size);
        proof {
            let entry = (SpecKey::Str(variant@), abs_value(*value));
            let es1 = seq![entry];
            assert(es1.last() == entry);
            assert(es1.drop_last() =~= Seq::<(SpecKey, SpecValue)>::empty());
            assert(enc_entries(es1.drop_last()) == Seq::<u8>::empty());
            assert(enc_entries(es1) =~= enc(entry.1) + enc_key(entry.0));
            assert(enc_key(SpecKey::Str(variant@)) == enc(SpecValue::Str(variant@)));
            assert(final(self).sout() =~= old(self).sout() + enc(
                SpecValue::Object(es1),
            ));
        }
        Ok(())
    }

    /// Emits one key: keys share the leaf encodings of values.
    pub fn serialize_key(&mut self, k: &KeyValue) -> (r: Result<(), Error>)
        requires
            old(self).wf(),
        ensures
            final(self).wf(),
            r is Ok,
            final(self).sout() == old(self).sout() + enc_key(abs_key(*k)),
            final(self).spec_size() == old(self).spec_size() + enc_key(abs_key(*k)).len(),
            final(self).depth() == old(self).depth(),
    {
        proof {
            lemma_auto_spec_u16_to_from_le_bytes();
            lemma_auto_spec_u32_to_from_le_bytes();
            lemma_auto_spec_u64_to_from_le_bytes();
        }
        match k {
            KeyValue::Undefined => self.serialize_undefined(),
            KeyValue::Null => self.serialize_none(),
            KeyValue::Bool(b) => self.serialize_bool(*b),
            KeyValue::Int(Int::I8(x)) => self.serialize_i8(*x),
            KeyValue::Int(Int::I16(x)) => self.serialize_i16(*x),
            KeyValue::Int(Int::I32(x)) => self.serialize_i32(*x),
            KeyValue::Int(Int::I64(x)) => self.serialize_i64(*x),
            KeyValue::UInt(UInt::U8(x)) => self.serialize_u8(*x),
            KeyValue::UInt(UInt::U16(x)) => self.serialize_u16(*x),
            KeyValue::UInt(UInt::U32(x)) => self.serialize_u32(*x),
            KeyValue::UInt(UInt::U64(x)) => self.serialize_u64(*x),
            KeyValue::Float(Float::F16(x)) => self.serialize_f16(*x),
            KeyValue::Float(Float::F32(x)) => self.serialize_f32(*x),
            KeyValue::Float(Float::F64(x)) => self.serialize_f64(*x),
            KeyValue::String(st) => self.serialize_str(st.as_str()),
            KeyValue::Bytes(b) => self.serialize_bytes(b.as_slice()),
            KeyValue::UUID(u) => self.serialize_uuid(u),
            KeyValue::DateTime(st) => self.serialize_datetime(st.as_str()),
            KeyValue::Timestamp(t) => self.serialize_timestamp(*t),
            KeyValue::Duration(d) => self.serialize_duration(*d),
        }
    }

    /// Emits a whole value tree. Children go out in document order, each
    /// composite closing with a trailing header; within object entries the
    /// value precedes its key. The nesting depth is balanced on return.
    #[verifier::loop_isolation(false)]
    #[verifier::rlimit(100)]
    #[verifier::spinoff_prover]
    pub fn serialize_value(&mut self, v: &Value) -> (r: Result<(), Error>)
        requires
            old(self).wf(),
        ensures
            final(self).wf(),
            r is Ok,
            final(self).sout() == old(self).sout() + enc(abs_value(*v)),
            final(self).spec_size() == old(self).spec_size() + enc(abs_value(*v)).len(),
            final(self).depth() == old(self).depth(),
            sizes_ok(abs_value(*v)),
        decreases *v,
    {
        proof {
            lemma_auto_spec_u16_to_from_le_bytes();
            lemma_auto_spec_u32_to_from_le_bytes();
            lemma_auto_spec_u64_to_from_le_bytes();
        }
        match v {
            Value::Undefined => self.serialize_undefined(),
            Value::Null => self.serialize_none(),
            Value::Bool(b) => self.serialize_bool(*b),
            Value::Int(Int::I8(x)) => self.serialize_i8(*x),
            Value::Int(Int::I16(x)) => self.serialize_i16(*x),
            Value::Int(Int::I32(x)) => self.serialize_i32(*x),
            Value::Int(Int::I64(x)) => self.serialize_i64(*x),
            Value::UInt(UInt::U8(x)) => self.serialize_u8(*x),
            Value::UInt(UInt::U16(x)) => self.serialize_u16(*x),
            Value::UInt(UInt::U32(x)) => self.serialize_u32(*x),
            Value::UInt(UInt::U64(x)) => self.serialize_u64(*x),
            Value::Float(Float::F16(x)) => self.serialize_f16(*x),
            Value::Float(Float::F32(x)) => self.serialize_f32(*x),
            Value::Float(Float::F64(x)) => self.serialize_f64(*x),
            Value::String(st) => {
                let r = self.serialize_str(st.as_str());
                proof {
                    lemma_sizes_from_usize(enc(abs_value(*v)).len() as int);
                    assert(sizes_ok(abs_value(*v)));
                }
                r
            },
            Value::Bytes(b) => {
                let r = self.serialize_bytes(b.as_slice());
                proof {
                    lemma_sizes_from_usize(enc(abs_value(*v)).len() as int);
                    assert(sizes_ok(abs_value(*v)));
                }
                r
            },
            Value::UUID(u) => self.serialize_uuid(u),
            Value::DateTime(st) => {
                let r = self.serialize_datetime(st.as_str());
                proof {
                    lemma_sizes_from_usize(enc(abs_value(*v)).len() as int);
                    assert(sizes_ok(abs_value(*v)));
                }
                r
            },
            Value::Timestamp(t) => self.serialize_timestamp(*t),
            Value::Duration(d) => self.serialize_duration(*d),
            Value::WrappedJSON(st) => {
                let r = self.serialize_wrapped_json(st.as_str());
                proof {
                    lemma_sizes_from_usize(enc(abs_value(*v)).len() as int);
                    assert(sizes_ok(abs_value(*v)));
                }
                r
            },
            Value::Meta(b) => {
                let start_pos = self.size;
                let _ = self.serialize_value(&**b);
                let inner_size = self.size - start_pos;
                self.write_header(prefix::META, inner_size);
                proof {
                    assert(final(self).sout() =~= old(self).sout() + enc(abs_value(*v)));
                    lemma_sizes_from_usize(enc(abs_value(**b)).len() as int);
                    assert(sizes_ok(abs_value(*v)));
                }
                Ok(())
            },
            Value::Array(elems) => {
                let start_pos = self.size;
                let n = elems.len();
                let ghost al = abs_list(elems@);
                proof {
                    lemma_abs_list_props(elems@);
                    assert(al.take(0) =~= Seq::<SpecValue>::empty());
                }
                let mut i: usize = 0;
                while i < n
                    invariant
                        self.wf(),
                        i <= n,
                        n == elems@.len(),
                        al == abs_list(elems@),
                        al.len() == n,
                        forall|j: int| 0 <= j < n ==> al[j] == abs_value(#[trigger] elems@[j]),
                        start_pos <= self.spec_size(),
                        self.sout() == old(self).sout() + enc_list(al.take(i as int)),
                        self.spec_size() == start_pos + enc_list(al.take(i as int)).len(),
                        start_pos == old(self).spec_size(),
                        old(self).wf(),
                        self.depth() == old(self).depth(),
                        forall|j: int| 0 <= j < i ==> sizes_ok(#[trigger] al[j]),
                    decreases n - i,
                {
                    proof {
                        assert(decreases_to!(*v => *elems));
                        assert(decreases_to!(*elems => elems@));
                        assert(decreases_to!(elems@ => elems@[i as int]));
                    }
                    let _ = self.serialize_value(&elems[i]);
                    proof {
                        lemma_enc_list_snoc(al, i as int);
                        assert(self.sout() =~= old(self).sout() + enc_list(
                            al.take(i as int + 1),
                        ));
                    }
                    i = i + 1;
                }
                proof {
                    assert(al.take(n as int) =~= al);
                }
                let payload = self.size - start_pos;
                self.write_header(prefix::ARRAY, payload);
                proof {
                    assert(final(self).sout() =~= old(self).sout() + enc(abs_value(*v)));
                    lemma_sizes_from_usize(enc_list(al).len() as int);
                    assert(sizes_ok(abs_value(*v)));
                }
                Ok(())
            },
            Value::Object(m) => {
                let start_pos = self.size;
                let n = m.entries.len();
                let ghost aes = abs_entries(m.entries@);
                proof {
                    lemma_abs_entries_props(m.entries@);
                    assert(aes.take(0) =~= Seq::<(SpecKey, SpecValue)>::empty());
                }
                let mut i: usize = 0;
                while i < n
                    invariant
                        self.wf(),
                        i <= n,
                        n == m.entries@.len(),
                        aes == abs_entries(m.entries@),
                        aes.len() == n,
                        forall|j: int|
                            0 <= j < n ==> aes[j] == (
                                abs_key(#[trigger] m.entries@[j].0),
                                abs_value(m.entries@[j].1),
                            ),
                        start_pos <= self.spec_size(),
                        self.sout() == old(self).sout() + enc_entries(aes.take(i as int)),
                        self.spec_size() == start_pos + enc_entries(aes.take(i as int)).len(),
                        start_pos == old(self).spec_size(),
                        old(self).wf(),
                        self.depth() == old(self).depth(),
                        forall|j: int|
                            0 <= j < i ==> key_sizes_ok(#[trigger] aes[j].0) && sizes_ok(
                                aes[j].1,
                            ),
                    decreases n - i,
                {
                    proof {
                        assert(decreases_to!(*v => *m));
                        assert(decreases_to!(*m => m.entries));
                        assert(decreases_to!(m.entries => m.entries@));
                        assert(decreases_to!(m.entries@ => m.entries@[i as int]));
                    }
                    let _ = self.serialize_value(&m.entries[i].1);
                    let _ = self.serialize_key(&m.entries[i].0);
                    proof {
                        lemma_enc_entries_snoc(aes, i as int);
                        assert(self.sout() =~= old(self).sout() + enc_entries(
                            aes.take(i as int + 1),
                        ));
                        lemma_key_sizes(aes[i as int].0, enc_key(aes[i as int].0).len() as int);
                        assert(aes[i as int].1 == abs_value(m.entries@[i as int].1));
                        assert(key_sizes_ok(aes[i as int].0) && sizes_ok(aes[i as int].1));
                    }
                    i = i + 1;
                }
                proof {
                    assert(aes.take(n as int) =~= aes);
                }
                let payload = self.size - start_pos;
                self.write_header(prefix::OBJECT, payload);
                proof {
                    assert(final(self).sout() =~= old(self).sout() + enc(abs_value(*v)));
                    lemma_sizes_from_usize(enc_entries(aes).len() as int);
                    assert(abs_value(*v) == SpecValue::Object(aes));
                    assert(enc_entries(aes).len() <= u64::MAX);
                    assert(forall|j: int|
                        0 <= j < aes.len() ==> key_sizes_ok(#[trigger] aes[j].0) && sizes_ok(
                            aes[j].1,
                        ));
                    assert(sizes_ok(SpecValue::Object(aes)));
                    assert(sizes_ok(abs_value(*v)));
                }
                Ok(())
            },
        }
    }
}

/// A payload that fits a machine word fits the eight-byte size class.
proof fn lemma_sizes_from_usize(n: int)
    requires
        0 <= n <= usize::MAX,
    ensures
        n <= u64::MAX,
{
}

/// A key whose whole encoding fits a machine word has a payload that fits
/// the eight-byte size class.
proof fn lemma_key_sizes(k: SpecKey, n: int)
    requires
        n == enc_key(k).len(),
        n <= usize::MAX,
    ensures
        key_sizes_ok(k),
{
}

/// The extended serialization capability: a type that knows its own
/// canonical TON bytes can be written through the reverse serializer.
/// The in-memory value model implements it; user types carrying
/// TON-native data may implement it too.
pub trait ExtendSerialize {
    /// The canonical bytes this value serializes to.
    spec fn ton_enc(&self) -> Seq<u8>;

    /// Appends exactly this value's canonical bytes to the stream.
    fn ex_serialize(&self, serializer: &mut ReverseSerializer) -> (r: Result<(), Error>)
        requires
            old(serializer).wf(),
        ensures
            final(serializer).wf(),
            r is Ok,
            final(serializer).sout() == old(serializer).sout() + self.ton_enc(),
            final(serializer).spec_size() == old(serializer).spec_size() + self.ton_enc().len(),
            final(serializer).depth() == old(serializer).depth(),
    ;
}

impl ExtendSerialize for Value {
    open spec fn ton_enc(&self) -> Seq<u8> {
        enc(abs_value(*self))
    }

    fn ex_serialize(&self, serializer: &mut ReverseSerializer) -> (r: Result<(), Error>) {
        serializer.serialize_value(self)
    }
}

impl ExtendSerialize for KeyValue {
    open spec fn ton_enc(&self) -> Seq<u8> {
        enc_key(abs_key(*self))
    }

    fn ex_serialize(&self, serializer: &mut ReverseSerializer) -> (r: Result<(), Error>) {
        serializer.serialize_key(self)
    }
}

impl ExtendSerialize for Float {
    open spec fn ton_enc(&self) -> Seq<u8> {
        enc(SpecValue::Float(*self))
    }

    fn ex_serialize(&self, serializer: &mut ReverseSerializer) -> (r: Result<(), Error>) {
        proof {
            lemma_auto_spec_u16_to_from_le_bytes();
            lemma_auto_spec_u32_to_from_le_bytes();
            lemma_auto_spec_u64_to_from_le_bytes();
        }
        match self {
            Float::F16(x) => serializer.serialize_f16(*x),
            Float::F32(x) => serializer.serialize_f32(*x),
            Float::F64(x) => serializer.serialize_f64(*x),
        }
    }
}

} // verus!
