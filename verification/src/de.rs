//! The reverse streaming decoder.
//!
//! A TON stream is read tail-first: the trailing prefix byte classifies
//! the value, the length field before it bounds the payload, and parsing
//! recurses backward through the payload.

use vstd::prelude::*;

use crate::error::{Error, ErrorCode};
use crate::value::prefix;
use crate::value::value::{
    abs_key, abs_value, enc, enc_entries, enc_key, enc_list, enc_prefix_byte, key_embed,
    lemma_enc_key_len_pos, lemma_enc_len_pos, lemma_enc_shape, sizes_ok, spec_value_wf, KeyValue,
    SpecKey, SpecValue, Value,
};
use crate::traits::reader::{Reader, SeekFrom, SliceReader, VecReader};
use crate::value::map::ObjectMap;
use crate::value::num::{Float, Int, UInt};
use vstd::slice::{slice_subrange, slice_to_vec};
use vstd::utf8::encode_utf8;

verus! {

/// The type families a prefix byte can name.
#[derive(Debug, Clone, Copy, PartialEq, Eq, Structural)]
pub enum TonTypes {
    Undefined,
    Null,
    Bool,
    UIntU8,
    UIntU16,
    UIntU32,
    UIntU64,
    IntI8,
    IntI16,
    IntI32,
    IntI64,
    Float16,
    Float32,
    Float64,
    String,
    Bytes,
    UUID,
    DateTime,
    Timestamp,
    Duration,
    Array,
    Object,
    WrappedJSON,
    Meta,
}

/// The family (and, for scalars, the width) a prefix byte names, if any.
pub open spec fn spec_classify_prefix(pfx: u8) -> Option<TonTypes> {
    if pfx == 0xFC {
        Some(TonTypes::Undefined)
    } else if pfx == 0x00 {
        Some(TonTypes::Null)
    } else if pfx == 0x04 || pfx == 0x05 {
        Some(TonTypes::Bool)
    } else if pfx == 0x08 {
        Some(TonTypes::IntI8)
    } else if pfx == 0x09 {
        Some(TonTypes::IntI16)
    } else if pfx == 0x0A {
        Some(TonTypes::IntI32)
    } else if pfx == 0x0B {
        Some(TonTypes::IntI64)
    } else if pfx == 0x0C {
        Some(TonTypes::UIntU8)
    } else if pfx == 0x0D {
        Some(TonTypes::UIntU16)
    } else if pfx == 0x0E {
        Some(TonTypes::UIntU32)
    } else if pfx == 0x0F {
        Some(TonTypes::UIntU64)
    } else if pfx == 0x11 {
        Some(TonTypes::Float16)
    } else if pfx == 0x12 {
        Some(TonTypes::Float32)
    } else if pfx == 0x13 {
        Some(TonTypes::Float64)
    } else if 0x14 <= pfx < 0x18 {
        Some(TonTypes::String)
    } else if 0x18 <= pfx < 0x1C {
        Some(TonTypes::Bytes)
    } else if pfx == 0x1C {
        Some(TonTypes::UUID)
    } else if 0x20 <= pfx < 0x24 {
        Some(TonTypes::DateTime)
    } else if pfx == 0x27 {
        Some(TonTypes::Timestamp)
    } else if pfx == 0x2B {
        Some(TonTypes::Duration)
    } else if 0x2C <= pfx < 0x30 {
        Some(TonTypes::Array)
    } else if 0x30 <= pfx < 0x34 {
        Some(TonTypes::Object)
    } else if 0x34 <= pfx < 0x38 {
        Some(TonTypes::WrappedJSON)
    } else if 0x38 <= pfx < 0x3C {
        Some(TonTypes::Meta)
    } else {
        None
    }
}

/// Classifies a prefix byte: which family it names, and for fixed-width
/// scalars which width; padding and unknown families yield nothing a
/// value can be built from.
pub fn classify_prefix(pfx: u8) -> (r: Option<TonTypes>)
    ensures
        r == spec_classify_prefix(pfx),
{
    if pfx == 0xFC {
        Some(TonTypes::Undefined)
    } else if pfx == 0x00 {
        Some(TonTypes::Null)
    } else if pfx == 0x04 || pfx == 0x05 {
        Some(TonTypes::Bool)
    } else if pfx == 0x08 {
        Some(TonTypes::IntI8)
    } else if pfx == 0x09 {
        Some(TonTypes::IntI16)
    } else if pfx == 0x0A {
        Some(TonTypes::IntI32)
    } else if pfx == 0x0B {
        Some(TonTypes::IntI64)
    } else if pfx == 0x0C {
        Some(TonTypes::UIntU8)
    } else if pfx == 0x0D {
        Some(TonTypes::UIntU16)
    } else if pfx == 0x0E {
        Some(TonTypes::UIntU32)
    } else if pfx == 0x0F {
        Some(TonTypes::UIntU64)
    } else if pfx == 0x11 {
        Some(TonTypes::Float16)
    } else if pfx == 0x12 {
        Some(TonTypes::Float32)
    } else if pfx == 0x13 {
        Some(TonTypes::Float64)
    } else if 0x14 <= pfx && pfx < 0x18 {
        Some(TonTypes::String)
    } else if 0x18 <= pfx && pfx < 0x1C {
        Some(TonTypes::Bytes)
    } else if pfx == 0x1C {
        Some(TonTypes::UUID)
    } else if 0x20 <= pfx && pfx < 0x24 {
        Some(TonTypes::DateTime)
    } else if pfx == 0x27 {
        Some(TonTypes::Timestamp)
    } else if pfx == 0x2B {
        Some(TonTypes::Duration)
    } else if 0x2C <= pfx && pfx < 0x30 {
        Some(TonTypes::Array)
    } else if 0x30 <= pfx && pfx < 0x34 {
        Some(TonTypes::Object)
    } else if 0x34 <= pfx && pfx < 0x38 {
        Some(TonTypes::WrappedJSON)
    } else if 0x38 <= pfx && pfx < 0x3C {
        Some(TonTypes::Meta)
    } else {
        None
    }
}

/// Every prefix byte a canonical encoding ends with names a family the
/// classifier recognizes; only padding frames and corrupt bytes do not.
pub proof fn lemma_classify_canonical(a: SpecValue)
    ensures
        spec_classify_prefix(enc_prefix_byte(a)) is Some,
{
}

/// Frames left by a run of padding calls: each chain member is one
/// padding frame's payload length.
pub open spec fn pad_chain(fs: Seq<nat>) -> Seq<u8>
    decreases fs.len(),
{
    if fs.len() == 0 {
        Seq::empty()
    } else {
        pad_chain(fs.drop_last()) + prefix::pad_enc(fs.last())
    }
}

/// Padding lengths a writer can emit: nonzero and within the eight-byte
/// size class.
pub open spec fn pads_ok(fs: Seq<nat>) -> bool {
    forall|i: int| 0 <= i < fs.len() ==> 1 <= #[trigger] fs[i] <= u64::MAX
}

/// The bytes of `b` between `s` and `end` are exactly the canonical
/// encoding of the well-formed value `a`, followed by a run of padding
/// frames.
pub open spec fn decodes_to(b: Seq<u8>, s: int, end: int, a: SpecValue, fs: Seq<nat>) -> bool {
    &&& 0 <= s <= end <= b.len()
    &&& spec_value_wf(a)
    &&& sizes_ok(a)
    &&& pads_ok(fs)
    &&& b.subrange(s, end) == enc(a) + pad_chain(fs)
}


/// Round trip: the stream the serializer emits for a well-formed value —
/// optionally followed by padding frames — satisfies the decoder's
/// hypothesis, so `deserialize_value` returns exactly that value's model
/// and stops at the stream start. Read tail-to-head the stream means the
/// value; the complementary guarantee is the decoder's own contract.
pub proof fn lemma_round_trip(v: Value, fs: Seq<nat>, b: Seq<u8>)
    requires
        spec_value_wf(abs_value(v)),
        sizes_ok(abs_value(v)),
        pads_ok(fs),
        b == enc(abs_value(v)) + pad_chain(fs),
    ensures
        decodes_to(b, 0, b.len() as int, abs_value(v), fs),
{
    assert(b.subrange(0, b.len() as int) =~= b);
}

/// The little-endian value of a 1, 2, 4 or 8 byte field.
pub open spec fn le_field(b: Seq<u8>) -> u64 {
    if b.len() == 1 {
        b[0] as u64
    } else if b.len() == 2 {
        vstd::bytes::spec_u16_from_le_bytes(b) as u64
    } else if b.len() == 4 {
        vstd::bytes::spec_u32_from_le_bytes(b) as u64
    } else {
        vstd::bytes::spec_u64_from_le_bytes(b)
    }
}

/// A length written in its minimal size class reads back unchanged.
pub proof fn lemma_len_field_roundtrip(len: nat)
    requires
        len <= 0xFFFF_FFFF_FFFF_FFFF,
    ensures
        prefix::len_le_bytes(len, prefix::size_class_of(len)).len() == prefix::class_width(
            prefix::size_class_of(len),
        ),
        le_field(prefix::len_le_bytes(len, prefix::size_class_of(len))) == len,
{
    vstd::bytes::lemma_auto_spec_u16_to_from_le_bytes();
    vstd::bytes::lemma_auto_spec_u32_to_from_le_bytes();
    vstd::bytes::lemma_auto_spec_u64_to_from_le_bytes();
}

/// Splitting a subrange equality into its two parts.
pub proof fn lemma_split_suffix(b: Seq<u8>, s: int, end: int, x: Seq<u8>, y: Seq<u8>)
    requires
        0 <= s <= end <= b.len(),
        b.subrange(s, end) == x + y,
    ensures
        end - s == x.len() + y.len(),
        b.subrange(s, end - y.len()) == x,
        b.subrange(end - y.len(), end) == y,
{
    assert(b.subrange(s, end).len() == x.len() + y.len());
    assert forall|i: int| 0 <= i < x.len() implies b.subrange(s, end - y.len())[i] == x[i] by {
        assert((x + y)[i] == x[i]);
        assert(b.subrange(s, end)[i] == b[s + i]);
    }
    assert(b.subrange(s, end - y.len()) =~= x);
    assert forall|i: int| 0 <= i < y.len() implies b.subrange(end - y.len(), end)[i] == y[i] by {
        assert((x + y)[x.len() + i] == y[i]);
        assert(b.subrange(s, end)[x.len() + i] == b[s + x.len() + i]);
    }
    assert(b.subrange(end - y.len(), end) =~= y);
}

/// A nonempty padding chain ends with a well-shaped padding frame.
proof fn lemma_pad_chain_frame(fs: Seq<nat>)
    requires
        pads_ok(fs),
        fs.len() > 0,
    ensures
        ({
            let n = fs.last();
            let c = prefix::size_class_of(n);
            let w = prefix::class_width(c);
            &&& prefix::pad_enc(n).len() == n + w + 1
            &&& prefix::pad_enc(n).last() == (0x3C + c) as u8
            &&& pad_chain(fs) == pad_chain(fs.drop_last()) + prefix::pad_enc(n)
            &&& pad_chain(fs).len() >= n + w + 1
            &&& pad_chain(fs).last() == (0x3C + c) as u8
        }),
{
    let n = fs.last();
    assert(fs[fs.len() - 1] == n);
    assert(1 <= n <= u64::MAX);
    prefix::lemma_header_len(prefix::PADDING, n);
}

/// Under a hypothesis whose stream does not end in a padding byte, the
/// padding chain is empty and the bytes are exactly the value's encoding.
proof fn lemma_hyp_value(b: Seq<u8>, s: int, end: int, a: SpecValue, fs: Seq<nat>)
    requires
        decodes_to(b, s, end, a, fs),
        end >= 1,
        !(0x3C <= b[end - 1] < 0x40),
    ensures
        fs.len() == 0,
        b.subrange(s, end) == enc(a),
        enc(a).len() == end - s,
        enc(a).len() >= 1,
        enc_prefix_byte(a) == b[end - 1],
{
    lemma_enc_shape(a);
    if fs.len() > 0 {
        lemma_pad_chain_frame(fs);
        assert(b.subrange(s, end).last() == b[end - 1]);
        assert((enc(a) + pad_chain(fs)).last() == pad_chain(fs).last());
        assert(prefix::size_class_of(fs.last()) < 4);
        assert(false);
    }
    assert(enc(a) + pad_chain(fs) =~= enc(a));
    assert(b.subrange(s, end).last() == b[end - 1]);
}

/// Under a hypothesis whose stream ends in a padding byte, the final
/// frame is padding; past it the same hypothesis holds with a shorter
/// chain.
proof fn lemma_hyp_pad(b: Seq<u8>, s: int, end: int, a: SpecValue, fs: Seq<nat>)
    requires
        decodes_to(b, s, end, a, fs),
        end >= 1,
        0x3C <= b[end - 1] < 0x40,
    ensures
        fs.len() > 0,
        ({
            let n = fs.last();
            let c = prefix::size_class_of(n);
            let w = prefix::class_width(c);
            &&& b[end - 1] == (0x3C + c) as u8
            &&& end - s >= n + w + 1
            &&& b.subrange(end - 1 - w, end - 1) == prefix::len_le_bytes(n, c)
            &&& le_field(b.subrange(end - 1 - w, end - 1)) == n
            &&& decodes_to(b, s, end - (n + w + 1), a, fs.drop_last())
        }),
{
    lemma_enc_shape(a);
    assert(b.subrange(s, end).last() == b[end - 1]);
    if fs.len() == 0 {
        assert(enc(a) + pad_chain(fs) =~= enc(a));
        assert(enc_prefix_byte(a) == b[end - 1]);
        assert(false);
    }
    lemma_pad_chain_frame(fs);
    let n = fs.last();
    let c = prefix::size_class_of(n);
    let w = prefix::class_width(c);
    assert(enc(a) + pad_chain(fs) =~= (enc(a) + pad_chain(fs.drop_last()))
        + prefix::pad_enc(n));
    lemma_split_suffix(b, s, end, enc(a) + pad_chain(fs.drop_last()), prefix::pad_enc(n));
    let fe = end - (n + w + 1);
    assert(prefix::pad_enc(n) =~= (prefix::zero_bytes(n) + prefix::len_le_bytes(n, c)) + seq![
        (0x3C + c) as u8,
    ]);
    lemma_split_suffix(
        b,
        fe,
        end,
        prefix::zero_bytes(n) + prefix::len_le_bytes(n, c),
        seq![(0x3C + c) as u8],
    );
    lemma_split_suffix(b, fe, end - 1, prefix::zero_bytes(n), prefix::len_le_bytes(n, c));
    lemma_len_field_roundtrip(n);
    assert(pads_ok(fs.drop_last())) by {
        assert(forall|i: int|
            0 <= i < fs.drop_last().len() ==> fs.drop_last()[i] == #[trigger] fs[i]);
    }
}

/// Concatenated encodings split at any boundary.
pub proof fn lemma_enc_list_cat(l: Seq<SpecValue>, k: int)
    requires
        0 <= k <= l.len(),
    ensures
        enc_list(l) == enc_list(l.take(k)) + enc_list(l.skip(k)),
    decreases l.len() - k,
{
    if k == l.len() {
        assert(l.take(k) =~= l);
        assert(l.skip(k).len() == 0);
        assert(enc_list(l) =~= enc_list(l.take(k)) + enc_list(l.skip(k)));
    } else {
        lemma_enc_list_cat(l.drop_last(), k);
        assert(l.drop_last().take(k) =~= l.take(k));
        assert(l.skip(k).drop_last() =~= l.drop_last().skip(k));
        assert(l.skip(k).last() == l.last());
        assert(l.skip(k).len() > 0);
        assert(enc_list(l.skip(k)) == enc_list(l.drop_last().skip(k)) + enc(l.last()));
        assert(enc_list(l) =~= enc_list(l.take(k)) + enc_list(l.skip(k)));
    }
}

/// A nonempty list has a nonempty concatenated encoding.
pub proof fn lemma_enc_list_len_pos(l: Seq<SpecValue>)
    requires
        l.len() > 0,
    ensures
        enc_list(l).len() >= 1,
{
    lemma_enc_len_pos(l.last());
}

/// Concatenated entry encodings split at any boundary.
pub proof fn lemma_enc_entries_cat(es: Seq<(SpecKey, SpecValue)>, k: int)
    requires
        0 <= k <= es.len(),
    ensures
        enc_entries(es) == enc_entries(es.take(k)) + enc_entries(es.skip(k)),
    decreases es.len() - k,
{
    if k == es.len() {
        assert(es.take(k) =~= es);
        assert(es.skip(k).len() == 0);
        assert(enc_entries(es) =~= enc_entries(es.take(k)) + enc_entries(es.skip(k)));
    } else {
        lemma_enc_entries_cat(es.drop_last(), k);
        assert(es.drop_last().take(k) =~= es.take(k));
        assert(es.skip(k).drop_last() =~= es.drop_last().skip(k));
        assert(es.skip(k).last() == es.last());
        assert(es.skip(k).len() > 0);
        assert(enc_entries(es) =~= enc_entries(es.take(k)) + enc_entries(es.skip(k)));
    }
}

/// A nonempty entry list has a nonempty concatenated encoding.
pub proof fn lemma_enc_entries_len_pos(es: Seq<(SpecKey, SpecValue)>)
    requires
        es.len() > 0,
    ensures
        enc_entries(es).len() >= 1,
{
    lemma_enc_key_len_pos(es.last().0);
}

/// Reads a 1, 2, 4 or 8 byte little-endian field.
fn read_le_field(bytes: &[u8], lo: usize, w: usize) -> (r: u64)
    requires
        w == 1 || w == 2 || w == 4 || w == 8,
        lo + w <= bytes@.len(),
    ensures
        r == le_field(bytes@.subrange(lo as int, lo as int + w as int)),
{
    let n = bytes.len();
    if w == 1 {
        let b = bytes[lo];
        proof {
            assert(bytes@.subrange(lo as int, lo as int + 1)[0] == bytes@[lo as int]);
        }
        b as u64
    } else if w == 2 {
        vstd::bytes::u16_from_le_bytes(slice_subrange(bytes, lo, lo + 2)) as u64
    } else if w == 4 {
        vstd::bytes::u32_from_le_bytes(slice_subrange(bytes, lo, lo + 4)) as u64
    } else {
        vstd::bytes::u64_from_le_bytes(slice_subrange(bytes, lo, lo + 8))
    }
}

/// Width in bytes of a size class.
fn width_of_class(cls: u8) -> (w: usize)
    requires
        cls < 4,
    ensures
        w as int == prefix::class_width(cls as int),
        w == 1 || w == 2 || w == 4 || w == 8,
{
    if cls == 0 {
        1
    } else if cls == 1 {
        2
    } else if cls == 2 {
        4
    } else {
        8
    }
}

/// The signed 8-bit value behind a two's-complement residue.
fn i8_from_bits(r: u8) -> (v: i8)
    ensures
        crate::value::num::i8_bits(v) == r,
{
    if r < 0x80 {
        r as i8
    } else {
        ((r as i16) - 0x100) as i8
    }
}

/// The signed 16-bit value behind a two's-complement residue.
fn i16_from_bits(r: u16) -> (v: i16)
    ensures
        crate::value::num::i16_bits(v) == r,
{
    if r < 0x8000 {
        r as i16
    } else {
        ((r as i32) - 0x10000) as i16
    }
}

/// The signed 32-bit value behind a two's-complement residue.
fn i32_from_bits(r: u32) -> (v: i32)
    ensures
        crate::value::num::i32_bits(v) == r,
{
    if r < 0x8000_0000 {
        r as i32
    } else {
        ((r as i64) - 0x1_0000_0000) as i32
    }
}

/// The signed 64-bit value behind a two's-complement residue.
fn i64_from_bits(r: u64) -> (v: i64)
    ensures
        crate::value::num::i64_bits(v) == r,
{
    if r < 0x8000_0000_0000_0000 {
        r as i64
    } else {
        ((r as i128) - 0x1_0000_0000_0000_0000) as i64
    }
}

/// Relies on String::from_utf8: it returns the string holding exactly the
/// given bytes when they are valid UTF-8, and refuses them otherwise.
#[verifier::external_body]
fn bytes_to_string(v: Vec<u8>) -> (r: Option<String>)
    ensures
        r matches Some(s) ==> vstd::utf8::encode_utf8(s@) == v@ && vstd::utf8::valid_utf8(v@),
        r is None ==> !vstd::utf8::valid_utf8(v@),
{
    match String::from_utf8(v) {
        Ok(s) => Some(s),
        Err(_) => None,
    }
}

/// Turns a decoded value into an OBJECT key; composite shapes are not
/// admissible as keys.
fn value_to_key(v: Value) -> (r: Result<KeyValue, Error>)
    requires
        spec_value_wf(abs_value(v)),
    ensures
        r matches Ok(kv) ==> key_embed(abs_key(kv)) == abs_value(v)
            && crate::value::value::key_wf(abs_key(kv)),
        forall|k: SpecKey| abs_value(v) == key_embed(k) ==> r is Ok,
        r matches Err(e) ==> crate::error::decode_category(
            crate::error::spec_classify(e.spec_code()),
        ),
{
    match v {
        Value::Undefined => Ok(KeyValue::Undefined),
        Value::Null => Ok(KeyValue::Null),
        Value::Bool(b) => Ok(KeyValue::Bool(b)),
        Value::Int(i) => Ok(KeyValue::Int(i)),
        Value::UInt(u) => Ok(KeyValue::UInt(u)),
        Value::Float(f) => Ok(KeyValue::Float(f)),
        Value::String(s) => Ok(KeyValue::String(s)),
        Value::Bytes(b) => Ok(KeyValue::Bytes(b)),
        Value::UUID(u) => Ok(KeyValue::UUID(u)),
        Value::DateTime(s) => Ok(KeyValue::DateTime(s)),
        Value::Timestamp(t) => Ok(KeyValue::Timestamp(t)),
        Value::Duration(d) => Ok(KeyValue::Duration(d)),
        _ => Err(Error::new(ErrorCode::InvalidType, 0)),
    }
}


/// Embedding keys among values loses nothing.
proof fn lemma_key_embed_injective(k1: SpecKey, k2: SpecKey)
    requires
        key_embed(k1) == key_embed(k2),
    ensures
        k1 == k2,
{
}

/// How a frame's payload, length field and prefix byte sit in the stream.
proof fn lemma_frame_parts(b: Seq<u8>, s: int, end: int, fam: u8, payload: Seq<u8>)
    requires
        0 <= s <= end <= b.len(),
        b.subrange(s, end) == prefix::frame(fam, payload),
        payload.len() <= 0xFFFF_FFFF_FFFF_FFFF,
    ensures
        ({
            let c = prefix::size_class_of(payload.len());
            let w = prefix::class_width(c);
            &&& end - s == payload.len() + w + 1
            &&& b.subrange(s, s + payload.len()) == payload
            &&& b.subrange(end - 1 - w, end - 1) == prefix::len_le_bytes(payload.len(), c)
            &&& le_field(b.subrange(end - 1 - w, end - 1)) == payload.len()
            &&& b[end - 1] == (fam + c) as u8
        }),
{
    let c = prefix::size_class_of(payload.len());
    let w = prefix::class_width(c);
    prefix::lemma_header_len(fam, payload.len());
    assert(prefix::frame(fam, payload) =~= (payload + prefix::len_le_bytes(payload.len(), c))
        + seq![(fam + c) as u8]);
    lemma_split_suffix(
        b,
        s,
        end,
        payload + prefix::len_le_bytes(payload.len(), c),
        seq![(fam + c) as u8],
    );
    lemma_split_suffix(b, s, end - 1, payload, prefix::len_le_bytes(payload.len(), c));
    lemma_len_field_roundtrip(payload.len());
    assert(b[end - 1] == b.subrange(end - 1, end)[0]);
}

/// A fixed-width scalar's frame is its field plus the prefix byte.
proof fn scalar_len(a: SpecValue, pfx: u8, w: int)
    requires
        enc_prefix_byte(a) == pfx,
        (0x08 <= pfx < 0x14 && pfx != 0x10) || pfx == 0x27 || pfx == 0x2B,
        w == prefix::class_width((pfx % 4) as int),
    ensures
        enc(a).len() == 1 + w,
{
    vstd::bytes::lemma_auto_spec_u16_to_from_le_bytes();
    vstd::bytes::lemma_auto_spec_u32_to_from_le_bytes();
    vstd::bytes::lemma_auto_spec_u64_to_from_le_bytes();
}

/// The prefix byte of a fixed-width scalar pins the variant, and the
/// field before it carries the value's bits.
proof fn scalar_invert(
    b: Seq<u8>,
    s: int,
    end: int,
    a: SpecValue,
    fs: Seq<nat>,
    pfx: u8,
    w: int,
    raw: u64,
)
    requires
        decodes_to(b, s, end, a, fs),
        end >= 1,
        b[end - 1] == pfx,
        (0x08 <= pfx < 0x14 && pfx != 0x10) || pfx == 0x27 || pfx == 0x2B,
        w == prefix::class_width((pfx % 4) as int),
        end - 1 - w >= 0,
        raw == le_field(b.subrange(end - 1 - w, end - 1)),
    ensures
        s == end - 1 - w,
        pfx == 0x08 ==> (a matches SpecValue::Int(Int::I8(x)) && crate::value::num::i8_bits(x)
            == raw as u8),
        pfx == 0x09 ==> (a matches SpecValue::Int(Int::I16(x))
            && crate::value::num::i16_bits(x) == raw as u16),
        pfx == 0x0A ==> (a matches SpecValue::Int(Int::I32(x))
            && crate::value::num::i32_bits(x) == raw as u32),
        pfx == 0x0B ==> (a matches SpecValue::Int(Int::I64(x))
            && crate::value::num::i64_bits(x) == raw),
        pfx == 0x0C ==> a == SpecValue::UInt(UInt::U8(raw as u8)),
        pfx == 0x0D ==> a == SpecValue::UInt(UInt::U16(raw as u16)),
        pfx == 0x0E ==> a == SpecValue::UInt(UInt::U32(raw as u32)),
        pfx == 0x0F ==> a == SpecValue::UInt(UInt::U64(raw)),
        pfx == 0x11 ==> a == SpecValue::Float(Float::F16(raw as u16)),
        pfx == 0x12 ==> a == SpecValue::Float(Float::F32(raw as u32)),
        pfx == 0x13 ==> a == SpecValue::Float(Float::F64(raw)),
        pfx == 0x27 ==> (a matches SpecValue::Timestamp(x) && crate::value::num::i64_bits(x)
            == raw),
        pfx == 0x2B ==> (a matches SpecValue::Duration(x) && crate::value::num::i64_bits(x)
            == raw),
{
    lemma_hyp_value(b, s, end, a, fs);
    lemma_enc_shape(a);
    scalar_len(a, pfx, w);
    vstd::bytes::lemma_auto_spec_u16_to_from_le_bytes();
    vstd::bytes::lemma_auto_spec_u32_to_from_le_bytes();
    vstd::bytes::lemma_auto_spec_u64_to_from_le_bytes();
    match a {
        SpecValue::Int(i) => {
            assert(enc(a) =~= crate::value::num::int_bytes(i) + seq![pfx]);
            lemma_split_suffix(b, s, end, crate::value::num::int_bytes(i), seq![pfx]);
        },
        SpecValue::UInt(u) => {
            assert(enc(a) =~= crate::value::num::uint_bytes(u) + seq![pfx]);
            lemma_split_suffix(b, s, end, crate::value::num::uint_bytes(u), seq![pfx]);
        },
        SpecValue::Float(f) => {
            assert(enc(a) =~= crate::value::num::float_bytes(f) + seq![pfx]);
            lemma_split_suffix(b, s, end, crate::value::num::float_bytes(f), seq![pfx]);
        },
        SpecValue::Timestamp(x) => {
            assert(enc(a) =~= vstd::bytes::spec_u64_to_le_bytes(crate::value::num::i64_bits(x))
                + seq![pfx]);
            lemma_split_suffix(
                b,
                s,
                end,
                vstd::bytes::spec_u64_to_le_bytes(crate::value::num::i64_bits(x)),
                seq![pfx],
            );
        },
        SpecValue::Duration(x) => {
            assert(enc(a) =~= vstd::bytes::spec_u64_to_le_bytes(crate::value::num::i64_bits(x))
                + seq![pfx]);
            lemma_split_suffix(
                b,
                s,
                end,
                vstd::bytes::spec_u64_to_le_bytes(crate::value::num::i64_bits(x)),
                seq![pfx],
            );
        },
        _ => {
            assert(false);
        },
    }
}

/// A framed value needs room for its length field and prefix, and its
/// payload fits before them.
proof fn framed_no_room(b: Seq<u8>, s: int, end: int, a: SpecValue, fs: Seq<nat>, pfx: u8, w: int)
    requires
        decodes_to(b, s, end, a, fs),
        end >= 1,
        b[end - 1] == pfx,
        0x14 <= pfx < 0x40,
        !(0x1C <= pfx < 0x20),
        !(0x24 <= pfx < 0x2C),
        w == prefix::class_width((pfx % 4) as int),
    ensures
        end - s >= 1 + w,
        end - 1 - w - s >= le_field(b.subrange(end - 1 - w, end - 1)),
{
    if 0x3C <= pfx {
        lemma_hyp_pad(b, s, end, a, fs);
        return;
    }
    lemma_hyp_value(b, s, end, a, fs);
    match a {
        SpecValue::Str(t) => {
            lemma_frame_parts(b, s, end, prefix::STRING, encode_utf8(t));
        },
        SpecValue::Bytes(x) => {
            lemma_frame_parts(b, s, end, prefix::BYTES, x);
        },
        SpecValue::DateTime(t) => {
            lemma_frame_parts(b, s, end, prefix::DATETIME, encode_utf8(t));
        },
        SpecValue::Json(t) => {
            lemma_frame_parts(b, s, end, prefix::WRAPPED_JSON, encode_utf8(t));
        },
        SpecValue::Array(l) => {
            lemma_frame_parts(b, s, end, prefix::ARRAY, enc_list(l));
        },
        SpecValue::Object(es) => {
            lemma_frame_parts(b, s, end, prefix::OBJECT, enc_entries(es));
        },
        SpecValue::Meta(m) => {
            lemma_frame_parts(b, s, end, prefix::META, enc(*m));
        },
        _ => {
            assert(false);
        },
    }
}

/// The prefix byte of a text frame pins the variant, and its payload is
/// the UTF-8 encoding of the text.
proof fn framed_text_shape(
    b: Seq<u8>,
    s: int,
    end: int,
    a: SpecValue,
    fs: Seq<nat>,
    pfx: u8,
    fam: u8,
    w: int,
    plen: int,
)
    requires
        decodes_to(b, s, end, a, fs),
        end >= 1,
        b[end - 1] == pfx,
        fam == pfx - pfx % 4,
        fam == 0x14 || fam == 0x20 || fam == 0x34,
        w == prefix::class_width((pfx % 4) as int),
        end - 1 - w >= 0,
        plen == le_field(b.subrange(end - 1 - w, end - 1)),
        plen <= end - 1 - w,
    ensures
        s == end - 1 - w - plen,
        ({
            let payload = b.subrange(end - 1 - w - plen, end - 1 - w);
            &&& vstd::utf8::valid_utf8(payload)
            &&& (fam == 0x14 ==> a == SpecValue::Str(vstd::utf8::decode_utf8(payload)))
            &&& (fam == 0x20 ==> a == SpecValue::DateTime(vstd::utf8::decode_utf8(payload)))
            &&& (fam == 0x34 ==> a == SpecValue::Json(vstd::utf8::decode_utf8(payload)))
        }),
{
    lemma_hyp_value(b, s, end, a, fs);
    broadcast use vstd::utf8::encode_utf8_valid_utf8;
    broadcast use vstd::utf8::encode_utf8_decode_utf8;

    match a {
        SpecValue::Str(t) => {
            lemma_frame_parts(b, s, end, prefix::STRING, encode_utf8(t));
        },
        SpecValue::DateTime(t) => {
            lemma_frame_parts(b, s, end, prefix::DATETIME, encode_utf8(t));
        },
        SpecValue::Json(t) => {
            lemma_frame_parts(b, s, end, prefix::WRAPPED_JSON, encode_utf8(t));
        },
        _ => {
            assert(false);
        },
    }
}

/// The payload of a META frame is exactly one inner encoding.
proof fn meta_inner_hyp(
    b: Seq<u8>,
    s: int,
    end: int,
    a: SpecValue,
    fs: Seq<nat>,
    pfx: u8,
    w: int,
    plen: int,
)
    requires
        decodes_to(b, s, end, a, fs),
        end >= 1,
        b[end - 1] == pfx,
        pfx - pfx % 4 == 0x38,
        w == prefix::class_width((pfx % 4) as int),
        end - 1 - w >= 0,
        plen == le_field(b.subrange(end - 1 - w, end - 1)),
        plen <= end - 1 - w,
    ensures
        s == end - 1 - w - plen,
        a matches SpecValue::Meta(m) && decodes_to(
            b,
            end - 1 - w - plen,
            end - 1 - w,
            *m,
            Seq::empty(),
        ),
{
    lemma_hyp_value(b, s, end, a, fs);
    match a {
        SpecValue::Meta(m) => {
            lemma_frame_parts(b, s, end, prefix::META, enc(*m));
            assert(enc(*m) + pad_chain(Seq::<nat>::empty()) =~= enc(*m));
        },
        _ => {
            assert(false);
        },
    }
}

/// The failure the trailing header alone forces, if any: an empty stream
/// or a missing field or payload is an EOF; a byte naming no family, or
/// an illegal size class for its family, is an unknown format. Deeper
/// failures — a composite length disagreeing with its children, text that
/// is not UTF-8, a composite in key position, keys out of order — depend
/// on the payload and are not classified here.
pub open spec fn shallow_fail(b: Seq<u8>, end: int) -> Option<crate::error::Category> {
    if end <= 0 {
        Some(crate::error::Category::Eof)
    } else {
        let pfx = b[end - 1];
        if spec_classify_prefix(pfx) is None && !(0x3C <= pfx < 0x40) {
            Some(crate::error::Category::UnknownFormat)
        } else if pfx == 0xFC || pfx == 0x00 || pfx == 0x04 || pfx == 0x05 {
            None
        } else if (0x08 <= pfx < 0x14 && pfx != 0x10) || pfx == 0x27 || pfx == 0x2B {
            if end - 1 < prefix::class_width((pfx % 4) as int) {
                Some(crate::error::Category::Eof)
            } else {
                None
            }
        } else if pfx == 0x1C {
            if end - 1 < 16 {
                Some(crate::error::Category::Eof)
            } else {
                None
            }
        } else {
            let w = prefix::class_width((pfx % 4) as int);
            if end - 1 < w {
                Some(crate::error::Category::Eof)
            } else if le_field(b.subrange(end - 1 - w, end - 1)) > end - 1 - w {
                Some(crate::error::Category::Eof)
            } else {
                None
            }
        }
    }
}

/// The bytes between `lo` and `hi` are exactly the concatenated encodings
/// of the well-formed values `l`.
pub open spec fn list_hyp(b: Seq<u8>, lo: int, hi: int, l: Seq<SpecValue>) -> bool {
    &&& 0 <= lo <= hi <= b.len()
    &&& b.subrange(lo, hi) == enc_list(l)
    &&& forall|i: int|
        0 <= i < l.len() ==> spec_value_wf(#[trigger] l[i]) && sizes_ok(l[i])
}

/// The bytes between `lo` and `hi` are exactly the concatenated encodings
/// of the well-formed, strictly ascending entries `es`.
pub open spec fn entries_hyp(b: Seq<u8>, lo: int, hi: int, es: Seq<(SpecKey, SpecValue)>) -> bool {
    &&& 0 <= lo <= hi <= b.len()
    &&& b.subrange(lo, hi) == enc_entries(es)
    &&& crate::value::value::entries_sorted(es)
    &&& forall|i: int|
        0 <= i < es.len() ==> crate::value::value::key_wf(#[trigger] es[i].0)
            && crate::value::value::key_sizes_ok(es[i].0) && spec_value_wf(es[i].1) && sizes_ok(
            es[i].1,
        )
}

/// Parses a fixed-width scalar frame ending at `end`.
#[verifier::rlimit(80)]
#[verifier::spinoff_prover]
fn parse_scalar(bytes: &[u8], end: usize, pfx: u8) -> (r: Result<(Value, usize), Error>)
    requires
        1 <= end <= bytes@.len(),
        bytes@[end - 1] == pfx,
        (0x08 <= pfx < 0x14 && pfx != 0x10) || pfx == 0x27 || pfx == 0x2B,
    ensures
        r matches Ok(p) ==> p.1 < end && spec_value_wf(abs_value(p.0)),
        forall|a: SpecValue, s: int, fs: Seq<nat>|
            decodes_to(bytes@, s, end as int, a, fs) ==> (r matches Ok(p) && abs_value(p.0) == a
                && p.1 as int == s),
        shallow_fail(bytes@, end as int) matches Some(cat) ==> (r matches Err(e)
            && crate::error::spec_classify(e.spec_code()) == cat && e.spec_pos() == end as int),
        r matches Err(e) ==> crate::error::decode_category(
            crate::error::spec_classify(e.spec_code()),
        ),
{
    let ghost gb = bytes@;
    let ghost ge = end as int;
    let fam = pfx - pfx % 4;
    let cls = pfx % 4;
    let w = width_of_class(cls);
    if end - 1 < w {
        proof {
            assert forall|a: SpecValue, s: int, fs: Seq<nat>|
                decodes_to(gb, s, ge, a, fs) implies false by {
                lemma_hyp_value(gb, s, ge, a, fs);
                scalar_len(a, pfx, w as int);
            }
        }
        return Err(Error::new(ErrorCode::Eof, end));
    }
    let lo = end - 1 - w;
    let raw = read_le_field(bytes, lo, w);
    let val: Value = if fam == 0x08 {
        if cls == 0 {
            Value::Int(Int::I8(i8_from_bits(raw as u8)))
        } else if cls == 1 {
            Value::Int(Int::I16(i16_from_bits(raw as u16)))
        } else if cls == 2 {
            Value::Int(Int::I32(i32_from_bits(raw as u32)))
        } else {
            Value::Int(Int::I64(i64_from_bits(raw)))
        }
    } else if fam == 0x0C {
        if cls == 0 {
            Value::UInt(UInt::U8(raw as u8))
        } else if cls == 1 {
            Value::UInt(UInt::U16(raw as u16))
        } else if cls == 2 {
            Value::UInt(UInt::U32(raw as u32))
        } else {
            Value::UInt(UInt::U64(raw))
        }
    } else if fam == 0x10 {
        if cls == 1 {
            Value::Float(Float::F16(raw as u16))
        } else if cls == 2 {
            Value::Float(Float::F32(raw as u32))
        } else {
            Value::Float(Float::F64(raw))
        }
    } else if pfx == 0x27 {
        Value::Timestamp(i64_from_bits(raw))
    } else {
        Value::Duration(i64_from_bits(raw))
    };
    proof {
        assert forall|a: SpecValue, s: int, fs: Seq<nat>|
            decodes_to(gb, s, ge, a, fs) implies (a == abs_value(val) && s == lo as int) by {
            scalar_invert(gb, s, ge, a, fs, pfx, w as int, raw);
        }
    }
    Ok((val, lo))
}

/// Parses a UUID frame ending at `end`: sixteen octets and the prefix.
#[verifier::rlimit(80)]
#[verifier::spinoff_prover]
fn parse_uuid(bytes: &[u8], end: usize) -> (r: Result<(Value, usize), Error>)
    requires
        1 <= end <= bytes@.len(),
        bytes@[end - 1] == 0x1C,
    ensures
        r matches Ok(p) ==> p.1 < end && spec_value_wf(abs_value(p.0)),
        forall|a: SpecValue, s: int, fs: Seq<nat>|
            decodes_to(bytes@, s, end as int, a, fs) ==> (r matches Ok(p) && abs_value(p.0) == a
                && p.1 as int == s),
        shallow_fail(bytes@, end as int) matches Some(cat) ==> (r matches Err(e)
            && crate::error::spec_classify(e.spec_code()) == cat && e.spec_pos() == end as int),
        r matches Err(e) ==> crate::error::decode_category(
            crate::error::spec_classify(e.spec_code()),
        ),
{
    let ghost gb = bytes@;
    let ghost ge = end as int;
    if end - 1 < 16 {
        proof {
            assert forall|a: SpecValue, s: int, fs: Seq<nat>|
                decodes_to(gb, s, ge, a, fs) implies false by {
                lemma_hyp_value(gb, s, ge, a, fs);
                if let SpecValue::Uuid(u) = a {
                    assert(enc(a).len() == 17);
                } else {
                    assert(false);
                }
            }
        }
        return Err(Error::new(ErrorCode::Eof, end));
    }
    let lo = end - 17;
    let u: [u8; 16] = [
        bytes[lo],
        bytes[lo + 1],
        bytes[lo + 2],
        bytes[lo + 3],
        bytes[lo + 4],
        bytes[lo + 5],
        bytes[lo + 6],
        bytes[lo + 7],
        bytes[lo + 8],
        bytes[lo + 9],
        bytes[lo + 10],
        bytes[lo + 11],
        bytes[lo + 12],
        bytes[lo + 13],
        bytes[lo + 14],
        bytes[lo + 15],
    ];
    proof {
        assert(u@ =~= gb.subrange(lo as int, lo as int + 16));
        assert forall|a: SpecValue, s: int, fs: Seq<nat>|
            decodes_to(gb, s, ge, a, fs) implies (a == SpecValue::Uuid(u@) && s == lo as int) by {
            lemma_hyp_value(gb, s, ge, a, fs);
            if let SpecValue::Uuid(x) = a {
                lemma_split_suffix(gb, s, ge, x, seq![0x1Cu8]);
            } else {
                assert(false);
            }
        }
        assert(spec_value_wf(abs_value(Value::UUID(u))));
    }
    Ok((Value::UUID(u), lo))
}

/// Parses a UTF-8 text frame (STRING, DATETIME or WRAPPED_JSON) ending at
/// `end`.
#[verifier::rlimit(80)]
#[verifier::spinoff_prover]
fn parse_text(bytes: &[u8], end: usize, pfx: u8) -> (r: Result<(Value, usize), Error>)
    requires
        1 <= end <= bytes@.len(),
        bytes@[end - 1] == pfx,
        (pfx - pfx % 4) == 0x14 || (pfx - pfx % 4) == 0x20 || (pfx - pfx % 4) == 0x34,
    ensures
        r matches Ok(p) ==> p.1 < end && spec_value_wf(abs_value(p.0)),
        forall|a: SpecValue, s: int, fs: Seq<nat>|
            decodes_to(bytes@, s, end as int, a, fs) ==> (r matches Ok(p) && abs_value(p.0) == a
                && p.1 as int == s),
        shallow_fail(bytes@, end as int) matches Some(cat) ==> (r matches Err(e)
            && crate::error::spec_classify(e.spec_code()) == cat && e.spec_pos() == end as int),
        r matches Err(e) ==> crate::error::decode_category(
            crate::error::spec_classify(e.spec_code()),
        ),
{
    let ghost gb = bytes@;
    let ghost ge = end as int;
    let fam = pfx - pfx % 4;
    let cls = pfx % 4;
    let w = width_of_class(cls);
    if end - 1 < w {
        proof {
            assert forall|a: SpecValue, s: int, fs: Seq<nat>|
                decodes_to(gb, s, ge, a, fs) implies false by {
                framed_no_room(gb, s, ge, a, fs, pfx, w as int);
            }
        }
        return Err(Error::new(ErrorCode::Eof, end));
    }
    let hi = end - 1 - w;
    let raw_len = read_le_field(bytes, hi, w);
    if raw_len > hi as u64 {
        proof {
            assert forall|a: SpecValue, s: int, fs: Seq<nat>|
                decodes_to(gb, s, ge, a, fs) implies false by {
                framed_no_room(gb, s, ge, a, fs, pfx, w as int);
            }
        }
        return Err(Error::new(ErrorCode::Eof, end));
    }
    let plen = raw_len as usize;
    let lo = hi - plen;
    let payload = slice_to_vec(slice_subrange(bytes, lo, hi));
    let st = match bytes_to_string(payload) {
        Some(st) => st,
        None => {
            proof {
                assert forall|a: SpecValue, s: int, fs: Seq<nat>|
                    decodes_to(gb, s, ge, a, fs) implies false by {
                    framed_text_shape(gb, s, ge, a, fs, pfx, fam, w as int, plen as int);
                }
            }
            return Err(Error::new(ErrorCode::Syntax, end));
        },
    };
    let val: Value = if fam == 0x14 {
        Value::String(st)
    } else if fam == 0x20 {
        Value::DateTime(st)
    } else {
        Value::WrappedJSON(st)
    };
    proof {
        assert forall|a: SpecValue, s: int, fs: Seq<nat>|
            decodes_to(gb, s, ge, a, fs) implies (a == abs_value(val) && s == lo as int) by {
            framed_text_shape(gb, s, ge, a, fs, pfx, fam, w as int, plen as int);
            vstd::utf8::encode_utf8_decode_utf8(st@);
        }
    }
    Ok((val, lo))
}

/// Parses a BYTES frame ending at `end`.
#[verifier::rlimit(80)]
#[verifier::spinoff_prover]
fn parse_bytes_val(bytes: &[u8], end: usize, pfx: u8) -> (r: Result<(Value, usize), Error>)
    requires
        1 <= end <= bytes@.len(),
        bytes@[end - 1] == pfx,
        (pfx - pfx % 4) == 0x18,
    ensures
        r matches Ok(p) ==> p.1 < end && spec_value_wf(abs_value(p.0)),
        forall|a: SpecValue, s: int, fs: Seq<nat>|
            decodes_to(bytes@, s, end as int, a, fs) ==> (r matches Ok(p) && abs_value(p.0) == a
                && p.1 as int == s),
        shallow_fail(bytes@, end as int) matches Some(cat) ==> (r matches Err(e)
            && crate::error::spec_classify(e.spec_code()) == cat && e.spec_pos() == end as int),
        r matches Err(e) ==> crate::error::decode_category(
            crate::error::spec_classify(e.spec_code()),
        ),
{
    let ghost gb = bytes@;
    let ghost ge = end as int;
    let cls = pfx % 4;
    let w = width_of_class(cls);
    if end - 1 < w {
        proof {
            assert forall|a: SpecValue, s: int, fs: Seq<nat>|
                decodes_to(gb, s, ge, a, fs) implies false by {
                framed_no_room(gb, s, ge, a, fs, pfx, w as int);
            }
        }
        return Err(Error::new(ErrorCode::Eof, end));
    }
    let hi = end - 1 - w;
    let raw_len = read_le_field(bytes, hi, w);
    if raw_len > hi as u64 {
        proof {
            assert forall|a: SpecValue, s: int, fs: Seq<nat>|
                decodes_to(gb, s, ge, a, fs) implies false by {
                framed_no_room(gb, s, ge, a, fs, pfx, w as int);
            }
        }
        return Err(Error::new(ErrorCode::Eof, end));
    }
    let plen = raw_len as usize;
    let lo = hi - plen;
    let payload = slice_to_vec(slice_subrange(bytes, lo, hi));
    proof {
        assert forall|a: SpecValue, s: int, fs: Seq<nat>|
            decodes_to(gb, s, ge, a, fs) implies (a == SpecValue::Bytes(payload@) && s
                == lo as int) by {
            lemma_hyp_value(gb, s, ge, a, fs);
            if let SpecValue::Bytes(x) = a {
                lemma_frame_parts(gb, s, ge, prefix::BYTES, x);
            } else {
                assert(false);
            }
        }
    }
    Ok((Value::Bytes(payload), lo))
}

/// Parses the value whose frame (after any trailing padding frames) ends
/// at `end`, returning the value and the offset its frame starts at.
///
/// On every stream that is a canonical encoding followed by padding
/// frames, the parse succeeds and yields exactly the encoded value — read
/// tail-to-head the stream is unambiguous; read head-to-tail it has no
/// guaranteed meaning.
#[verifier::loop_isolation(false)]
#[verifier::rlimit(100)]
#[verifier::spinoff_prover]
pub fn parse_at(bytes: &[u8], end: usize) -> (r: Result<(Value, usize), Error>)
    requires
        end <= bytes@.len(),
    ensures
        r matches Ok(p) ==> p.1 < end && spec_value_wf(abs_value(p.0)),
        forall|a: SpecValue, s: int, fs: Seq<nat>|
            decodes_to(bytes@, s, end as int, a, fs) ==> (r matches Ok(p) && abs_value(p.0) == a
                && p.1 as int == s),
        shallow_fail(bytes@, end as int) matches Some(cat) ==> (r matches Err(e)
            && crate::error::spec_classify(e.spec_code()) == cat && e.spec_pos() == end as int),
        r matches Err(e) ==> crate::error::decode_category(
            crate::error::spec_classify(e.spec_code()),
        ),
    decreases end, 1int,
{
    let ghost gb = bytes@;
    let ghost ge = end as int;
    if end == 0 {
        proof {
            assert forall|a: SpecValue, s: int, fs: Seq<nat>|
                decodes_to(gb, s, ge, a, fs) implies false by {
                lemma_enc_len_pos(a);
                assert(gb.subrange(s, ge).len() == 0);
            }
        }
        return Err(Error::new(ErrorCode::Eof, 0));
    }
    let pfx = bytes[end - 1];
    proof {
        assert(gb[ge - 1] == pfx);
    }
    if pfx == 0x00 {
        proof {
            assert forall|a: SpecValue, s: int, fs: Seq<nat>|
                decodes_to(gb, s, ge, a, fs) implies (a == SpecValue::Null && s == ge - 1) by {
                lemma_hyp_value(gb, s, ge, a, fs);
            }
        }
        return Ok((Value::Null, end - 1));
    }
    if pfx == 0xFC {
        proof {
            assert forall|a: SpecValue, s: int, fs: Seq<nat>|
                decodes_to(gb, s, ge, a, fs) implies (a == SpecValue::Undefined && s == ge
                    - 1) by {
                lemma_hyp_value(gb, s, ge, a, fs);
            }
        }
        return Ok((Value::Undefined, end - 1));
    }
    if pfx == 0x04 || pfx == 0x05 {
        let v = pfx == 0x05;
        proof {
            assert forall|a: SpecValue, s: int, fs: Seq<nat>|
                decodes_to(gb, s, ge, a, fs) implies (a == SpecValue::Bool(v) && s == ge - 1) by {
                lemma_hyp_value(gb, s, ge, a, fs);
            }
        }
        return Ok((Value::Bool(v), end - 1));
    }
    let fam = pfx - pfx % 4;
    let cls = pfx % 4;
    if fam == 0x08 || fam == 0x0C || (fam == 0x10 && cls != 0) || pfx == 0x27 || pfx == 0x2B {
        return parse_scalar(bytes, end, pfx);
    }
    if pfx == 0x1C {
        return parse_uuid(bytes, end);
    }
    if fam == 0x14 || fam == 0x20 || fam == 0x34 {
        return parse_text(bytes, end, pfx);
    }
    if fam == 0x18 {
        return parse_bytes_val(bytes, end, pfx);
    }
    if fam == 0x3C {
        return parse_skip_padding(bytes, end, pfx);
    }
    if fam == 0x2C || fam == 0x30 || fam == 0x38 {
        return parse_composite(bytes, end, pfx);
    }
    // No known family, or an illegal size class for the family.
    proof {
        assert forall|a: SpecValue, s: int, fs: Seq<nat>| decodes_to(gb, s, ge, a, fs)
            implies false by {
            lemma_hyp_value(gb, s, ge, a, fs);
        }
    }
    Err(Error::new(ErrorCode::UnknownFormat, end))
}

/// Skips one padding frame ending at `end` and parses the value before
/// it: padding is transparent wherever a value boundary exists.
#[verifier::rlimit(90)]
#[verifier::spinoff_prover]
fn parse_skip_padding(bytes: &[u8], end: usize, pfx: u8) -> (r: Result<(Value, usize), Error>)
    requires
        1 <= end <= bytes@.len(),
        bytes@[end - 1] == pfx,
        (pfx - pfx % 4) == 0x3C,
    ensures
        r matches Ok(p) ==> p.1 < end && spec_value_wf(abs_value(p.0)),
        forall|a: SpecValue, s: int, fs: Seq<nat>|
            decodes_to(bytes@, s, end as int, a, fs) ==> (r matches Ok(p) && abs_value(p.0) == a
                && p.1 as int == s),
        shallow_fail(bytes@, end as int) matches Some(cat) ==> (r matches Err(e)
            && crate::error::spec_classify(e.spec_code()) == cat && e.spec_pos() == end as int),
        r matches Err(e) ==> crate::error::decode_category(
            crate::error::spec_classify(e.spec_code()),
        ),
    decreases end, 0int,
{
    let ghost gb = bytes@;
    let ghost ge = end as int;
    let cls = pfx % 4;
    let w = width_of_class(cls);
    if end - 1 < w {
        proof {
            assert forall|a: SpecValue, s: int, fs: Seq<nat>|
                decodes_to(gb, s, ge, a, fs) implies false by {
                framed_no_room(gb, s, ge, a, fs, pfx, w as int);
            }
        }
        return Err(Error::new(ErrorCode::Eof, end));
    }
    let hi = end - 1 - w;
    let raw_len = read_le_field(bytes, hi, w);
    if raw_len > hi as u64 {
        proof {
            assert forall|a: SpecValue, s: int, fs: Seq<nat>|
                decodes_to(gb, s, ge, a, fs) implies false by {
                framed_no_room(gb, s, ge, a, fs, pfx, w as int);
            }
        }
        return Err(Error::new(ErrorCode::Eof, end));
    }
    let plen = raw_len as usize;
    let lo = hi - plen;
    let r = parse_at(bytes, lo);
    proof {
        assert forall|a: SpecValue, s: int, fs: Seq<nat>|
            decodes_to(gb, s, ge, a, fs) implies (r matches Ok(p) && abs_value(p.0) == a
                && p.1 as int == s) by {
            lemma_hyp_pad(gb, s, ge, a, fs);
            assert(decodes_to(gb, s, lo as int, a, fs.drop_last()));
        }
    }
    r
}

/// Parses an ARRAY, OBJECT or META frame ending at `end`.
#[verifier::rlimit(100)]
#[verifier::spinoff_prover]
fn parse_composite(bytes: &[u8], end: usize, pfx: u8) -> (r: Result<(Value, usize), Error>)
    requires
        1 <= end <= bytes@.len(),
        bytes@[end - 1] == pfx,
        (pfx - pfx % 4) == 0x2C || (pfx - pfx % 4) == 0x30 || (pfx - pfx % 4) == 0x38,
    ensures
        r matches Ok(p) ==> p.1 < end && spec_value_wf(abs_value(p.0)),
        forall|a: SpecValue, s: int, fs: Seq<nat>|
            decodes_to(bytes@, s, end as int, a, fs) ==> (r matches Ok(p) && abs_value(p.0) == a
                && p.1 as int == s),
        shallow_fail(bytes@, end as int) matches Some(cat) ==> (r matches Err(e)
            && crate::error::spec_classify(e.spec_code()) == cat && e.spec_pos() == end as int),
        r matches Err(e) ==> crate::error::decode_category(
            crate::error::spec_classify(e.spec_code()),
        ),
    decreases end, 0int,
{
    let ghost gb = bytes@;
    let ghost ge = end as int;
    let fam = pfx - pfx % 4;
    let cls = pfx % 4;
    let w = width_of_class(cls);
    if end - 1 < w {
        proof {
            assert forall|a: SpecValue, s: int, fs: Seq<nat>|
                decodes_to(gb, s, ge, a, fs) implies false by {
                framed_no_room(gb, s, ge, a, fs, pfx, w as int);
            }
        }
        return Err(Error::new(ErrorCode::Eof, end));
    }
    let hi = end - 1 - w;
    let raw_len = read_le_field(bytes, hi, w);
    if raw_len > hi as u64 {
        proof {
            assert forall|a: SpecValue, s: int, fs: Seq<nat>|
                decodes_to(gb, s, ge, a, fs) implies false by {
                framed_no_room(gb, s, ge, a, fs, pfx, w as int);
            }
        }
        return Err(Error::new(ErrorCode::Eof, end));
    }
    let plen = raw_len as usize;
    let lo = hi - plen;
    if fam == 0x2C {
        let items = match parse_list(bytes, lo, hi) {
            Ok(items) => items,
            Err(e) => {
                proof {
                    assert forall|a: SpecValue, s: int, fs: Seq<nat>|
                        decodes_to(gb, s, ge, a, fs) implies false by {
                        lemma_hyp_value(gb, s, ge, a, fs);
                        if let SpecValue::Array(l) = a {
                            lemma_frame_parts(gb, s, ge, prefix::ARRAY, enc_list(l));
                            let c = prefix::size_class_of(enc_list(l).len());
                            assert(pfx == (0x2C + c) as u8);
                            assert(cls as int == c);
                            assert(plen as int == enc_list(l).len());
                            assert(list_hyp(gb, lo as int, hi as int, l));
                        } else {
                            assert(false);
                        }
                    }
                }
                return Err(e);
            },
        };
        proof {
            crate::value::value::lemma_abs_list_props(items@);
            assert forall|i: int|
                0 <= i < crate::value::value::abs_list(items@).len() implies spec_value_wf(
                #[trigger] crate::value::value::abs_list(items@)[i],
            ) by {
                assert(crate::value::value::abs_list(items@)[i] == abs_value(items@[i]));
            }
            assert(spec_value_wf(abs_value(Value::Array(items))));
            assert forall|a: SpecValue, s: int, fs: Seq<nat>|
                decodes_to(gb, s, ge, a, fs) implies (a == abs_value(Value::Array(items)) && s
                    == lo as int) by {
                lemma_hyp_value(gb, s, ge, a, fs);
                if let SpecValue::Array(l) = a {
                    lemma_frame_parts(gb, s, ge, prefix::ARRAY, enc_list(l));
                    let c = prefix::size_class_of(enc_list(l).len());
                    assert(pfx == (0x2C + c) as u8);
                    assert(cls as int == c);
                    assert(plen as int == enc_list(l).len());
                    assert(list_hyp(gb, lo as int, hi as int, l));
                } else {
                    assert(false);
                }
            }
        }
        return Ok((Value::Array(items), lo));
    }
    if fam == 0x30 {
        let entries = match parse_entries(bytes, lo, hi) {
            Ok(entries) => entries,
            Err(e) => {
                proof {
                    assert forall|a: SpecValue, s: int, fs: Seq<nat>|
                        decodes_to(gb, s, ge, a, fs) implies false by {
                        lemma_hyp_value(gb, s, ge, a, fs);
                        if let SpecValue::Object(es) = a {
                            lemma_frame_parts(gb, s, ge, prefix::OBJECT, enc_entries(es));
                            let c = prefix::size_class_of(enc_entries(es).len());
                            assert(pfx == (0x30 + c) as u8);
                            assert(cls as int == c);
                            assert(plen as int == enc_entries(es).len());
                            assert(entries_hyp(gb, lo as int, hi as int, es));
                        } else {
                            assert(false);
                        }
                    }
                }
                return Err(e);
            },
        };
        let val = Value::Object(ObjectMap { entries });
        proof {
            let ghost aes = crate::value::value::abs_entries(entries@);
            crate::value::value::lemma_abs_entries_props(entries@);
            assert(abs_value(val) == SpecValue::Object(aes));
            assert forall|i: int|
                0 <= i < aes.len() implies crate::value::value::key_wf(#[trigger] aes[i].0)
                && spec_value_wf(aes[i].1) by {}
            assert(spec_value_wf(SpecValue::Object(aes)));
            assert forall|a: SpecValue, s: int, fs: Seq<nat>|
                decodes_to(gb, s, ge, a, fs) implies (a == abs_value(val) && s == lo as int) by {
                lemma_hyp_value(gb, s, ge, a, fs);
                if let SpecValue::Object(es) = a {
                    lemma_frame_parts(gb, s, ge, prefix::OBJECT, enc_entries(es));
                    let c = prefix::size_class_of(enc_entries(es).len());
                    assert(pfx == (0x30 + c) as u8);
                    assert(cls as int == c);
                    assert(plen as int == enc_entries(es).len());
                    assert(entries_hyp(gb, lo as int, hi as int, es));
                } else {
                    assert(false);
                }
            }
        }
        return Ok((val, lo));
    }
    // META: one value wrapped, spanning the whole payload.
    let (inner, istart) = match parse_at(bytes, hi) {
        Ok(p) => p,
        Err(e) => {
            proof {
                assert forall|a: SpecValue, s: int, fs: Seq<nat>|
                    decodes_to(gb, s, ge, a, fs) implies false by {
                    meta_inner_hyp(gb, s, ge, a, fs, pfx, w as int, plen as int);
                }
            }
            return Err(e);
        },
    };
    if istart != lo {
        proof {
            assert forall|a: SpecValue, s: int, fs: Seq<nat>|
                decodes_to(gb, s, ge, a, fs) implies false by {
                meta_inner_hyp(gb, s, ge, a, fs, pfx, w as int, plen as int);
            }
        }
        return Err(Error::new(ErrorCode::Syntax, end));
    }
    proof {
        assert forall|a: SpecValue, s: int, fs: Seq<nat>|
            decodes_to(gb, s, ge, a, fs) implies (a == abs_value(Value::Meta(Box::new(inner)))
                && s == lo as int) by {
            meta_inner_hyp(gb, s, ge, a, fs, pfx, w as int, plen as int);
        }
    }
    Ok((Value::Meta(Box::new(inner)), lo))
}

/// Parses the concatenated value encodings filling `lo..hi`, tail-first,
/// returning them in document order.
#[verifier::loop_isolation(false)]
#[verifier::rlimit(100)]
#[verifier::spinoff_prover]
fn parse_list(bytes: &[u8], lo: usize, hi: usize) -> (r: Result<Vec<Value>, Error>)
    requires
        lo <= hi,
        hi <= bytes@.len(),
    ensures
        r matches Ok(vs) ==> forall|t: int|
            0 <= t < vs@.len() ==> spec_value_wf(abs_value(#[trigger] vs@[t])),
        forall|l: Seq<SpecValue>|
            #[trigger] list_hyp(bytes@, lo as int, hi as int, l) ==> (r matches Ok(vs)
                && crate::value::value::abs_list(vs@) == l),
        r matches Err(e) ==> crate::error::decode_category(
            crate::error::spec_classify(e.spec_code()),
        ),
    decreases hi, 2int,
{
    let ghost gb = bytes@;
    let mut pos: usize = hi;
    let mut tmp: Vec<Value> = Vec::new();
    proof {
        assert forall|l: Seq<SpecValue>|
            #[trigger] list_hyp(gb, lo as int, hi as int, l) implies hi as int == lo + enc_list(
            l.take(l.len() as int),
        ).len() by {
            assert(l.take(l.len() as int) =~= l);
            assert(gb.subrange(lo as int, hi as int).len() == hi - lo);
        }
    }
    while pos > lo
        invariant
            lo <= pos <= hi,
            forall|t: int| 0 <= t < tmp@.len() ==> spec_value_wf(abs_value(#[trigger] tmp@[t])),
            forall|l: Seq<SpecValue>|
                #[trigger] list_hyp(gb, lo as int, hi as int, l) ==> {
                    &&& tmp@.len() <= l.len()
                    &&& pos as int == lo + enc_list(l.take(l.len() - tmp@.len())).len()
                    &&& forall|t: int|
                        0 <= t < tmp@.len() ==> abs_value(#[trigger] tmp@[t]) == l[l.len() - 1
                            - t]
                },
        decreases pos,
    {
        let ghost j = tmp@.len() as int;
        proof {
            assert forall|l: Seq<SpecValue>|
                #[trigger] list_hyp(gb, lo as int, hi as int, l) implies {
                let k = l.len() - j;
                &&& k >= 1
                &&& decodes_to(gb, pos - enc(l[k - 1]).len(), pos as int, l[k - 1], Seq::empty())
                &&& pos - enc(l[k - 1]).len() == lo + enc_list(l.take(k - 1)).len()
            } by {
                let k = l.len() - j;
                if k == 0 {
                    assert(enc_list(l.take(0)) =~= Seq::<u8>::empty());
                    assert(false);
                }
                lemma_enc_list_cat(l, k);
                lemma_split_suffix(
                    gb,
                    lo as int,
                    hi as int,
                    enc_list(l.take(k)),
                    enc_list(l.skip(k)),
                );
                crate::value::value::lemma_enc_list_snoc(l, k - 1);
                lemma_split_suffix(
                    gb,
                    lo as int,
                    pos as int,
                    enc_list(l.take(k - 1)),
                    enc(l[k - 1]),
                );
                assert(enc(l[k - 1]) + pad_chain(Seq::<nat>::empty()) =~= enc(l[k - 1]));
            }
        }
        let (v, s2) = match parse_at(bytes, pos) {
            Ok(p) => p,
            Err(e) => {
                return Err(e);
            },
        };
        if s2 < lo {
            return Err(Error::new(ErrorCode::Syntax, pos));
        }
        tmp.push(v);
        pos = s2;
    }
    let ghost items = tmp@;
    let ghost n0 = tmp@.len() as int;
    proof {
        assert forall|l: Seq<SpecValue>|
            #[trigger] list_hyp(gb, lo as int, hi as int, l) implies l.len() == n0 by {
            let k = l.len() - n0;
            if k > 0 {
                assert(l.take(k).len() == k);
                lemma_enc_list_len_pos(l.take(k));
            }
        }
        assert forall|t: int|
            0 <= t < n0 implies spec_value_wf(abs_value(#[trigger] items[t])) by {
            assert(items[t] == tmp@[t]);
        }
    }
    let mut out: Vec<Value> = Vec::new();
    while tmp.len() > 0
        invariant
            out@.len() + tmp@.len() == n0,
            tmp@ == items.take(tmp@.len() as int),
            forall|t: int| 0 <= t < out@.len() ==> out@[t] == items[n0 - 1 - t],
        decreases tmp@.len(),
    {
        let ghost before = tmp@;
        match tmp.pop() {
            Some(x) => {
                proof {
                    assert(before.last() == items[before.len() - 1]);
                    assert(tmp@ =~= items.take(tmp@.len() as int));
                }
                out.push(x);
            },
            None => {
                proof {
                    assert(false);
                }
            },
        }
    }
    proof {
        crate::value::value::lemma_abs_list_props(out@);
        assert forall|t: int|
            0 <= t < out@.len() implies spec_value_wf(abs_value(#[trigger] out@[t])) by {
            assert(out@[t] == items[n0 - 1 - t]);
        }
        assert forall|l: Seq<SpecValue>|
            #[trigger] list_hyp(gb, lo as int, hi as int, l) implies
            crate::value::value::abs_list(out@) == l by {
            assert forall|t: int|
                0 <= t < l.len() implies crate::value::value::abs_list(out@)[t] == l[t] by {
                assert(out@[t] == items[n0 - 1 - t]);
                assert(abs_value(items[n0 - 1 - t]) == l[l.len() - 1 - (n0 - 1 - t)]);
            }
            assert(crate::value::value::abs_list(out@) =~= l);
        }
    }
    Ok(out)
}

/// Parses the concatenated entry encodings filling `lo..hi`, tail-first.
/// Each entry stands as value then key in the stream, so the reverse
/// reader meets the key first; keys must arrive in strictly descending
/// order, which is ascending document order.
#[verifier::loop_isolation(false)]
#[verifier::rlimit(100)]
#[verifier::spinoff_prover]
fn parse_entries(bytes: &[u8], lo: usize, hi: usize) -> (r: Result<Vec<(KeyValue, Value)>, Error>)
    requires
        lo <= hi,
        hi <= bytes@.len(),
    ensures
        r matches Ok(es) ==> {
            let aes = crate::value::value::abs_entries(es@);
            &&& crate::value::value::entries_sorted(aes)
            &&& forall|i: int|
                0 <= i < aes.len() ==> crate::value::value::key_wf(#[trigger] aes[i].0)
                    && spec_value_wf(aes[i].1)
        },
        forall|es: Seq<(SpecKey, SpecValue)>|
            #[trigger] entries_hyp(bytes@, lo as int, hi as int, es) ==> (r matches Ok(out)
                && crate::value::value::abs_entries(out@) == es),
        r matches Err(e) ==> crate::error::decode_category(
            crate::error::spec_classify(e.spec_code()),
        ),
    decreases hi, 2int,
{
    let ghost gb = bytes@;
    let mut pos: usize = hi;
    let mut tmp: Vec<(KeyValue, Value)> = Vec::new();
    proof {
        assert forall|es: Seq<(SpecKey, SpecValue)>|
            #[trigger] entries_hyp(gb, lo as int, hi as int, es) implies hi as int == lo
            + enc_entries(es.take(es.len() as int)).len() by {
            assert(es.take(es.len() as int) =~= es);
            assert(gb.subrange(lo as int, hi as int).len() == hi - lo);
        }
    }
    while pos > lo
        invariant
            lo <= pos <= hi,
            forall|t: int|
                0 <= t < tmp@.len() ==> crate::value::value::key_wf(
                    abs_key(#[trigger] tmp@[t].0),
                ) && spec_value_wf(abs_value(tmp@[t].1)),
            forall|t1: int, t2: int|
                0 <= t1 < t2 < tmp@.len() ==> crate::value::map::key_lt(
                    abs_key(#[trigger] tmp@[t2].0),
                    abs_key(#[trigger] tmp@[t1].0),
                ),
            forall|es: Seq<(SpecKey, SpecValue)>|
                #[trigger] entries_hyp(gb, lo as int, hi as int, es) ==> {
                    &&& tmp@.len() <= es.len()
                    &&& pos as int == lo + enc_entries(es.take(es.len() - tmp@.len())).len()
                    &&& forall|t: int|
                        0 <= t < tmp@.len() ==> abs_key(#[trigger] tmp@[t].0) == es[es.len() - 1
                            - t].0 && abs_value(tmp@[t].1) == es[es.len() - 1 - t].1
                },
        decreases pos,
    {
        let ghost j = tmp@.len() as int;
        proof {
            assert forall|es: Seq<(SpecKey, SpecValue)>|
                #[trigger] entries_hyp(gb, lo as int, hi as int, es) implies {
                let k = es.len() - j;
                let ke = enc_key(es[k - 1].0);
                let ve = enc(es[k - 1].1);
                &&& k >= 1
                &&& decodes_to(gb, pos - ke.len(), pos as int, key_embed(es[k - 1].0), Seq::empty())
                &&& decodes_to(
                    gb,
                    pos - ke.len() - ve.len(),
                    pos - ke.len(),
                    es[k - 1].1,
                    Seq::empty(),
                )
                &&& pos - ke.len() - ve.len() == lo + enc_entries(es.take(k - 1)).len()
            } by {
                let k = es.len() - j;
                if k == 0 {
                    assert(enc_entries(es.take(0)) =~= Seq::<u8>::empty());
                    assert(false);
                }
                lemma_enc_entries_cat(es, k);
                lemma_split_suffix(
                    gb,
                    lo as int,
                    hi as int,
                    enc_entries(es.take(k)),
                    enc_entries(es.skip(k)),
                );
                crate::value::value::lemma_enc_entries_snoc(es, k - 1);
                let ke = enc_key(es[k - 1].0);
                let ve = enc(es[k - 1].1);
                assert(enc_entries(es.take(k)) =~= (enc_entries(es.take(k - 1)) + ve) + ke);
                lemma_split_suffix(gb, lo as int, pos as int, enc_entries(es.take(k - 1)) + ve, ke);
                lemma_split_suffix(gb, lo as int, pos - ke.len(), enc_entries(es.take(k - 1)), ve);
                crate::value::value::lemma_key_embed(es[k - 1].0);
                assert(enc(key_embed(es[k - 1].0)) + pad_chain(Seq::<nat>::empty()) =~= ke);
                assert(ve + pad_chain(Seq::<nat>::empty()) =~= ve);
            }
        }
        let (kraw, ks) = match parse_at(bytes, pos) {
            Ok(p) => p,
            Err(e) => {
                return Err(e);
            },
        };
        if ks < lo {
            return Err(Error::new(ErrorCode::Syntax, pos));
        }
        let kv = match value_to_key(kraw) {
            Ok(kv) => kv,
            Err(e) => {
                return Err(e);
            },
        };
        let (vv, vs2) = match parse_at(bytes, ks) {
            Ok(p) => p,
            Err(e) => {
                return Err(e);
            },
        };
        if vs2 < lo {
            return Err(Error::new(ErrorCode::Syntax, ks));
        }
        proof {
            assert forall|es: Seq<(SpecKey, SpecValue)>|
                #[trigger] entries_hyp(gb, lo as int, hi as int, es) implies {
                let k = es.len() - j;
                &&& abs_key(kv) == es[k - 1].0
                &&& abs_value(vv) == es[k - 1].1
                &&& vs2 as int == lo + enc_entries(es.take(k - 1)).len()
            } by {
                let k = es.len() - j;
                lemma_key_embed_injective(abs_key(kv), es[k - 1].0);
            }
        }
        if tmp.len() > 0 {
            let c = crate::value::map::key_compare(&kv, &tmp[tmp.len() - 1].0);
            if c != -1 {
                proof {
                    assert forall|es: Seq<(SpecKey, SpecValue)>|
                        #[trigger] entries_hyp(gb, lo as int, hi as int, es) implies false by {
                        let k = es.len() - j;
                        assert(abs_key(tmp@[j - 1].0) == es[es.len() - j].0);
                        assert(crate::value::map::key_lt(es[k - 1].0, es[k].0));
                    }
                }
                return Err(Error::new(ErrorCode::Syntax, ks));
            }
        }
        proof {
            assert forall|t: int|
                0 <= t < tmp@.len() implies crate::value::map::key_lt(
                abs_key(kv),
                abs_key(#[trigger] tmp@[t].0),
            ) by {
                if t < tmp@.len() - 1 {
                    crate::value::map::lemma_key_lt_trans(
                        abs_key(kv),
                        abs_key(tmp@[tmp@.len() - 1].0),
                        abs_key(tmp@[t].0),
                    );
                }
            }
        }
        tmp.push((kv, vv));
        pos = vs2;
    }
    let ghost items = tmp@;
    let ghost n0 = tmp@.len() as int;
    proof {
        assert forall|es: Seq<(SpecKey, SpecValue)>|
            #[trigger] entries_hyp(gb, lo as int, hi as int, es) implies es.len() == n0 by {
            let k = es.len() - n0;
            if k > 0 {
                assert(es.take(k).len() == k);
                lemma_enc_entries_len_pos(es.take(k));
            }
        }
        assert forall|t: int|
            0 <= t < n0 implies crate::value::value::key_wf(abs_key(#[trigger] items[t].0))
            && spec_value_wf(abs_value(items[t].1)) by {
            assert(items[t] == tmp@[t]);
        }
        assert forall|t1: int, t2: int|
            0 <= t1 < t2 < n0 implies crate::value::map::key_lt(
            abs_key(#[trigger] items[t2].0),
            abs_key(#[trigger] items[t1].0),
        ) by {
            assert(items[t1] == tmp@[t1]);
            assert(items[t2] == tmp@[t2]);
        }
    }
    let mut out: Vec<(KeyValue, Value)> = Vec::new();
    while tmp.len() > 0
        invariant
            out@.len() + tmp@.len() == n0,
            tmp@ == items.take(tmp@.len() as int),
            forall|t: int| 0 <= t < out@.len() ==> out@[t] == items[n0 - 1 - t],
        decreases tmp@.len(),
    {
        let ghost before = tmp@;
        match tmp.pop() {
            Some(x) => {
                proof {
                    assert(before.last() == items[before.len() - 1]);
                    assert(tmp@ =~= items.take(tmp@.len() as int));
                }
                out.push(x);
            },
            None => {
                proof {
                    assert(false);
                }
            },
        }
    }
    proof {
        crate::value::value::lemma_abs_entries_props(out@);
        let aes = crate::value::value::abs_entries(out@);
        assert forall|t1: int, t2: int|
            0 <= t1 < t2 < aes.len() implies crate::value::map::key_lt(
            aes[t1].0,
            aes[t2].0,
        ) by {
            assert(out@[t1] == items[n0 - 1 - t1]);
            assert(out@[t2] == items[n0 - 1 - t2]);
            assert(crate::value::map::key_lt(
                abs_key(items[n0 - 1 - t1].0),
                abs_key(items[n0 - 1 - t2].0),
            ));
        }
        assert forall|i: int|
            0 <= i < aes.len() implies crate::value::value::key_wf(#[trigger] aes[i].0)
            && spec_value_wf(aes[i].1) by {
            assert(out@[i] == items[n0 - 1 - i]);
            assert(crate::value::value::key_wf(abs_key(items[n0 - 1 - i].0)));
            assert(spec_value_wf(abs_value(items[n0 - 1 - i].1)));
            assert(aes[i] == (abs_key(out@[i].0), abs_value(out@[i].1)));
        }
        assert forall|es: Seq<(SpecKey, SpecValue)>|
            #[trigger] entries_hyp(gb, lo as int, hi as int, es) implies
            crate::value::value::abs_entries(out@) == es by {
            assert forall|t: int|
                0 <= t < es.len() implies crate::value::value::abs_entries(out@)[t] == es[t] by {
                assert(out@[t] == items[n0 - 1 - t]);
                assert(abs_key(items[n0 - 1 - t].0) == es[es.len() - 1 - (n0 - 1 - t)].0);
                assert(abs_value(items[n0 - 1 - t].1) == es[es.len() - 1 - (n0 - 1 - t)].1);
            }
            assert(crate::value::value::abs_entries(out@) =~= es);
        }
    }
    Ok(out)
}

/// A self-describe tag sits at the very end of the stream.
pub open spec fn tag_at_end(b: Seq<u8>) -> bool {
    b.len() >= 4 && b.subrange(b.len() - 4, b.len() as int) == prefix::tag_seq()
}

/// The reverse streaming deserializer: it reads a stream tail-first
/// through a reader whose cursor sits just past the value to read.
pub struct ReverseDeserializer<R> {
    reader: R,
    deep: u64,
}

impl<R: Reader> ReverseDeserializer<R> {
    /// The bytes behind the reader.
    pub closed spec fn rdata(&self) -> Seq<u8> {
        self.reader.data()
    }

    /// The reader's cursor.
    pub closed spec fn rpos(&self) -> int {
        self.reader.cursor()
    }

    /// Wraps a reader; the cursor stays where the caller put it.
    pub fn new(reader: R) -> (r: Result<Self, Error>)
        ensures
            r matches Ok(d) && d.rdata() == reader.data() && d.rpos() == reader.cursor(),
    {
        Ok(Self { reader, deep: 0 })
    }

    /// The cursor, counted from the stream start.
    fn now_pos(&mut self) -> (r: Result<u64, Error>)
        ensures
            final(self).rdata() == old(self).rdata(),
            final(self).rpos() == old(self).rpos(),
            r matches Ok(p) && p as int == old(self).rpos(),
    {
        self.reader.stream_position()
    }

    /// Total stream length; the cursor is restored afterwards.
    fn get_size(reader: &mut R) -> (r: Result<u64, Error>)
        ensures
            final(reader).data() == old(reader).data(),
            final(reader).cursor() == old(reader).cursor(),
            r matches Ok(n) && n as int == old(reader).data().len(),
    {
        proof {
            reader.lemma_cursor_bounds();
        }
        let current = reader.stream_position()?;
        let end = reader.seek(SeekFrom::End(0))?;
        let _ = reader.seek(SeekFrom::Start(current))?;
        Ok(end)
    }

    /// The byte under the cursor, advancing past it; the stream end is an
    /// error here.
    pub fn next(&mut self) -> (r: Result<u8, Error>)
        ensures
            final(self).rdata() == old(self).rdata(),
            r matches Ok(b) ==> 0 <= old(self).rpos() < old(self).rdata().len() && b == old(
                self,
            ).rdata()[old(self).rpos()] && final(self).rpos() == old(self).rpos() + 1,
            r matches Err(e) ==> !(0 <= old(self).rpos() < old(self).rdata().len())
                && crate::error::spec_classify(e.spec_code()) == crate::error::Category::Eof,
    {
        match self.reader.next()? {
            Some(b) => Ok(b),
            None => Err(Error::new(ErrorCode::Eof, 0)),
        }
    }

    /// Steps back one byte and reads it; the stream start is an error
    /// here.
    pub fn prev(&mut self) -> (r: Result<u8, Error>)
        ensures
            final(self).rdata() == old(self).rdata(),
            r matches Ok(b) ==> 0 < old(self).rpos() <= old(self).rdata().len() && b == old(
                self,
            ).rdata()[old(self).rpos() - 1] && final(self).rpos() == old(self).rpos() - 1,
            r matches Err(e) ==> !(0 < old(self).rpos() <= old(self).rdata().len())
                && crate::error::spec_classify(e.spec_code()) == crate::error::Category::Eof,
    {
        match self.reader.prev()? {
            Some(b) => Ok(b),
            None => Err(Error::new(ErrorCode::Eof, 0)),
        }
    }

    /// The byte under the cursor, without moving; the stream end is an
    /// error here.
    pub fn peek(&mut self) -> (r: Result<u8, Error>)
        ensures
            final(self).rdata() == old(self).rdata(),
            final(self).rpos() == old(self).rpos(),
            r matches Ok(b) ==> 0 <= old(self).rpos() < old(self).rdata().len() && b == old(
                self,
            ).rdata()[old(self).rpos()],
            r matches Err(e) ==> !(0 <= old(self).rpos() < old(self).rdata().len())
                && crate::error::spec_classify(e.spec_code()) == crate::error::Category::Eof,
    {
        match self.reader.peek()? {
            Some(b) => Ok(b),
            None => Err(Error::new(ErrorCode::Eof, 0)),
        }
    }

    /// Reads the header whose prefix byte the cursor rests on: returns the
    /// length or value field before it together with the prefix byte, and
    /// leaves the cursor at the start of that field. It succeeds exactly
    /// when the cursor rests on a byte with the byte's whole field before
    /// it, and fails without moving otherwise.
    pub fn read_header(&mut self) -> (r: Result<(u64, u8), Error>)
        ensures
            final(self).rdata() == old(self).rdata(),
            r matches Ok(p) ==> ({
                let d = old(self).rdata();
                let c = old(self).rpos();
                let w = prefix::class_width((p.1 % 4) as int);
                &&& 0 <= c < d.len()
                &&& p.1 == d[c]
                &&& c >= w
                &&& final(self).rpos() == c - w
                &&& p.0 == le_field(d.subrange(c - w, c))
            }),
            ({
                let d = old(self).rdata();
                let c = old(self).rpos();
                0 <= c < d.len() && prefix::class_width((d[c] % 4) as int) <= c
            }) ==> r is Ok,
            r matches Err(e) ==> final(self).rpos() == old(self).rpos() && crate::error::spec_classify(
                e.spec_code(),
            ) == crate::error::Category::Eof,
    {
        proof {
            self.reader.lemma_cursor_bounds();
        }
        let header = self.peek()?;
        let cls = header % 4;
        let w = width_of_class(cls);
        let c = self.reader.stream_position()?;
        if c < w as u64 {
            return Err(Error::new(ErrorCode::Eof, 0));
        }
        let _ = self.reader.seek(SeekFrom::Current(-(w as i64)))?;
        let size: u64 = if cls == 0 {
            self.reader.read_u8()? as u64
        } else if cls == 1 {
            self.reader.read_u16()? as u64
        } else if cls == 2 {
            self.reader.read_u32()? as u64
        } else {
            self.reader.read_u64()? as u64
        };
        let _ = self.reader.seek(SeekFrom::Current(-(w as i64)))?;
        Ok((size, header))
    }
}

impl<'a> ReverseDeserializer<SliceReader<'a>> {
    /// A deserializer over a byte slice, positioned at the stream end,
    /// past any self-describe tag.
    pub fn from_slice(slice: &'a [u8]) -> (r: Result<Self, Error>)
        ensures
            r matches Ok(d) && d.rdata() == slice@ && d.rpos() == (if tag_at_end(slice@) {
                slice@.len() - 4
            } else {
                slice@.len() as int
            }),
    {
        let n = slice.len();
        let pos = if has_tag_at(slice, n) {
            n - 4
        } else {
            n
        };
        let mut reader = SliceReader::new(slice);
        let _ = reader.seek(SeekFrom::Start(pos as u64));
        Ok(Self { reader, deep: 0 })
    }

    /// The underlying slice back.
    pub fn into_inner(self) -> (s: &'a [u8])
        ensures
            s@ == self.rdata(),
    {
        self.reader.into_inner()
    }

    /// Parses the value ending at the cursor, leaving the cursor at the
    /// start of its frame: on a canonical stream (with any run of padding
    /// frames after the value) this yields exactly the encoded value.
    pub fn deserialize_value(&mut self) -> (r: Result<Value, Error>)
        ensures
            final(self).rdata() == old(self).rdata(),
            r matches Ok(v) ==> spec_value_wf(abs_value(v)),
            forall|a: SpecValue, s: int, fs: Seq<nat>|
                decodes_to(old(self).rdata(), s, old(self).rpos(), a, fs) ==> (r matches Ok(v)
                    && abs_value(v) == a && final(self).rpos() == s),
            match shallow_fail(old(self).rdata(), old(self).rpos()) {
                Some(cat) => old(self).rpos() <= old(self).rdata().len() ==> (r matches Err(e)
                    && crate::error::spec_classify(e.spec_code()) == cat && e.spec_pos() == old(
                    self,
                ).rpos()),
                Option::None => true,
            },
            r matches Err(e) ==> crate::error::decode_category(
                crate::error::spec_classify(e.spec_code()),
            ),
    {
        let bytes = self.reader.borrowed();
        let endp = self.reader.position();
        if endp > bytes.len() {
            return Err(Error::new(ErrorCode::Eof, endp));
        }
        match parse_at(bytes, endp) {
            Ok((v, s)) => {
                self.reader.set_position(s);
                Ok(v)
            },
            Err(e) => Err(e),
        }
    }
}

impl<'a> ReverseDeserializer<VecReader<'a>> {
    /// A deserializer over a byte vector, positioned at the stream end,
    /// past any self-describe tag.
    pub fn from_vec(vec: &'a Vec<u8>) -> (r: Result<Self, Error>)
        ensures
            r matches Ok(d) && d.rdata() == vec@ && d.rpos() == (if tag_at_end(vec@) {
                vec@.len() - 4
            } else {
                vec@.len() as int
            }),
    {
        let n = vec.len();
        let pos = if has_tag_at(vec.as_slice(), n) {
            n - 4
        } else {
            n
        };
        let mut reader = VecReader::new(vec);
        let _ = reader.seek(SeekFrom::Start(pos as u64));
        Ok(Self { reader, deep: 0 })
    }

    /// The underlying vector back.
    pub fn into_inner(self) -> (v: &'a Vec<u8>)
        ensures
            v@ == self.rdata(),
    {
        self.reader.into_inner()
    }

    /// Parses the value ending at the cursor, leaving the cursor at the
    /// start of its frame.
    pub fn deserialize_value(&mut self) -> (r: Result<Value, Error>)
        ensures
            final(self).rdata() == old(self).rdata(),
            r matches Ok(v) ==> spec_value_wf(abs_value(v)),
            forall|a: SpecValue, s: int, fs: Seq<nat>|
                decodes_to(old(self).rdata(), s, old(self).rpos(), a, fs) ==> (r matches Ok(v)
                    && abs_value(v) == a && final(self).rpos() == s),
            match shallow_fail(old(self).rdata(), old(self).rpos()) {
                Some(cat) => old(self).rpos() <= old(self).rdata().len() ==> (r matches Err(e)
                    && crate::error::spec_classify(e.spec_code()) == cat && e.spec_pos() == old(
                    self,
                ).rpos()),
                Option::None => true,
            },
            r matches Err(e) ==> crate::error::decode_category(
                crate::error::spec_classify(e.spec_code()),
            ),
    {
        let bytes = self.reader.borrowed();
        let endp = self.reader.position();
        if endp > bytes.len() {
            return Err(Error::new(ErrorCode::Eof, endp));
        }
        match parse_at(bytes.as_slice(), endp) {
            Ok((v, s)) => {
                self.reader.set_position(s);
                Ok(v)
            },
            Err(e) => Err(e),
        }
    }
}

/// Whether the four self-describe tag bytes end at offset `n`.
fn has_tag_at(slice: &[u8], n: usize) -> (r: bool)
    requires
        n <= slice@.len(),
    ensures
        r == (n >= 4 && slice@.subrange(n - 4, n as int) == prefix::tag_seq()),
{
    if n < 4 {
        return false;
    }
    let r = slice[n - 4] == 0x54 && slice[n - 3] == 0x4F && slice[n - 2] == 0x4E && slice[n - 1]
        == 0x52;
    proof {
        if r {
            assert(slice@.subrange(n - 4, n as int) =~= prefix::tag_seq());
        } else {
            if slice@.subrange(n - 4, n as int) == prefix::tag_seq() {
                assert(slice@[n - 4] == prefix::tag_seq()[0]);
                assert(slice@[n - 3] == prefix::tag_seq()[1]);
                assert(slice@[n - 2] == prefix::tag_seq()[2]);
                assert(slice@[n - 1] == prefix::tag_seq()[3]);
            }
        }
    }
    r
}

} // verus!

