//! The in-memory TON value model and its mathematical mirror.
//!
//! `Value` is the executable tree; `SpecValue` is the ghost view the
//! contracts speak about, and `enc` is the canonical wire encoding of a
//! `SpecValue` in write order (payload first, trailing header last).

use vstd::prelude::*;

use crate::value::map::{key_lt, ObjectMap};
use crate::value::num::{
    float_bytes, float_prefix, i64_bits, int_bytes, int_prefix, uint_bytes, uint_prefix, Float,
    Int, UInt,
};
use crate::value::prefix;
use vstd::utf8::encode_utf8;

verus! {

/// A TON value. Outside-world data is carried as plain values: floats as
/// IEEE bit patterns, UUIDs as their sixteen octets, date-times as their
/// RFC 3339 text and wrapped JSON as its serialized text.
#[derive(Debug, PartialEq, Eq, Hash)]
pub enum Value {
    /// A value that is not defined at all.
    Undefined,
    /// An absent value.
    Null,
    Bool(bool),
    Int(Int),
    UInt(UInt),
    Float(Float),
    String(String),
    Bytes(Vec<u8>),
    UUID([u8; 16]),
    /// RFC 3339 text of the instant.
    DateTime(String),
    /// POSIX seconds.
    Timestamp(i64),
    /// Nanoseconds.
    Duration(i64),
    Array(Vec<Value>),
    Object(ObjectMap),
    /// Pre-serialized JSON text.
    WrappedJSON(String),
    Meta(Box<Value>),
}

impl Default for Value {
    fn default() -> (r: Self)
        ensures
            r == Value::Null,
    {
        Value::Null
    }
}

/// The subset of value shapes admissible as OBJECT keys.
#[derive(Debug, PartialEq, Eq, Hash)]
pub enum KeyValue {
    Undefined,
    Null,
    Bool(bool),
    Int(Int),
    UInt(UInt),
    Float(Float),
    String(String),
    Bytes(Vec<u8>),
    UUID([u8; 16]),
    DateTime(String),
    Timestamp(i64),
    Duration(i64),
}

/// Ghost mirror of `Value` over mathematical sequences.
pub enum SpecValue {
    Undefined,
    Null,
    Bool(bool),
    Int(Int),
    UInt(UInt),
    Float(Float),
    Str(Seq<char>),
    Bytes(Seq<u8>),
    Uuid(Seq<u8>),
    DateTime(Seq<char>),
    Timestamp(i64),
    Duration(i64),
    Array(Seq<SpecValue>),
    Object(Seq<(SpecKey, SpecValue)>),
    Json(Seq<char>),
    Meta(Box<SpecValue>),
}

/// Ghost mirror of `KeyValue`.
pub enum SpecKey {
    Undefined,
    Null,
    Bool(bool),
    Int(Int),
    UInt(UInt),
    Float(Float),
    Str(Seq<char>),
    Bytes(Seq<u8>),
    Uuid(Seq<u8>),
    DateTime(Seq<char>),
    Timestamp(i64),
    Duration(i64),
}

/// The ghost view of a key.
pub open spec fn abs_key(k: KeyValue) -> SpecKey {
    match k {
        KeyValue::Undefined => SpecKey::Undefined,
        KeyValue::Null => SpecKey::Null,
        KeyValue::Bool(b) => SpecKey::Bool(b),
        KeyValue::Int(i) => SpecKey::Int(i),
        KeyValue::UInt(u) => SpecKey::UInt(u),
        KeyValue::Float(f) => SpecKey::Float(f),
        KeyValue::String(s) => SpecKey::Str(s@),
        KeyValue::Bytes(b) => SpecKey::Bytes(b@),
        KeyValue::UUID(u) => SpecKey::Uuid(u@),
        KeyValue::DateTime(s) => SpecKey::DateTime(s@),
        KeyValue::Timestamp(t) => SpecKey::Timestamp(t),
        KeyValue::Duration(d) => SpecKey::Duration(d),
    }
}

/// The ghost view of a value.
pub open spec fn abs_value(v: Value) -> SpecValue
    decreases v,
{
    match v {
        Value::Undefined => SpecValue::Undefined,
        Value::Null => SpecValue::Null,
        Value::Bool(b) => SpecValue::Bool(b),
        Value::Int(i) => SpecValue::Int(i),
        Value::UInt(u) => SpecValue::UInt(u),
        Value::Float(f) => SpecValue::Float(f),
        Value::String(s) => SpecValue::Str(s@),
        Value::Bytes(b) => SpecValue::Bytes(b@),
        Value::UUID(u) => SpecValue::Uuid(u@),
        Value::DateTime(s) => SpecValue::DateTime(s@),
        Value::Timestamp(t) => SpecValue::Timestamp(t),
        Value::Duration(d) => SpecValue::Duration(d),
        Value::Array(elems) => {
            proof {
                assert(decreases_to!(v => elems));
                assert(decreases_to!(elems => elems@));
            }
            SpecValue::Array(abs_list(elems@))
        },
        Value::Object(m) => {
            proof {
                assert(decreases_to!(v => m));
                assert(decreases_to!(m => m.entries));
                assert(decreases_to!(m.entries => m.entries@));
            }
            SpecValue::Object(abs_entries(m.entries@))
        },
        Value::WrappedJSON(s) => SpecValue::Json(s@),
        Value::Meta(b) => SpecValue::Meta(Box::new(abs_value(*b))),
    }
}

/// The ghost views of a sequence of values, in order.
pub open spec fn abs_list(l: Seq<Value>) -> Seq<SpecValue>
    decreases l,
{
    if l.len() == 0 {
        Seq::empty()
    } else {
        abs_list(l.drop_last()).push(abs_value(l.last()))
    }
}

/// The ghost views of a sequence of entries, in order.
pub open spec fn abs_entries(es: Seq<(KeyValue, Value)>) -> Seq<(SpecKey, SpecValue)>
    decreases es,
{
    if es.len() == 0 {
        Seq::empty()
    } else {
        abs_entries(es.drop_last()).push((abs_key(es.last().0), abs_value(es.last().1)))
    }
}

/// Canonical encoding of a key, in write order.
pub open spec fn enc_key(k: SpecKey) -> Seq<u8> {
    match k {
        SpecKey::Undefined => seq![0xFCu8],
        SpecKey::Null => seq![0x00u8],
        SpecKey::Bool(b) => if b {
            seq![0x05u8]
        } else {
            seq![0x04u8]
        },
        SpecKey::Int(i) => int_bytes(i) + seq![int_prefix(i)],
        SpecKey::UInt(u) => uint_bytes(u) + seq![uint_prefix(u)],
        SpecKey::Float(f) => float_bytes(f) + seq![float_prefix(f)],
        SpecKey::Str(s) => prefix::frame(prefix::STRING, encode_utf8(s)),
        SpecKey::Bytes(b) => prefix::frame(prefix::BYTES, b),
        SpecKey::Uuid(u) => u + seq![0x1Cu8],
        SpecKey::DateTime(s) => prefix::frame(prefix::DATETIME, encode_utf8(s)),
        SpecKey::Timestamp(t) => vstd::bytes::spec_u64_to_le_bytes(i64_bits(t)) + seq![0x27u8],
        SpecKey::Duration(d) => vstd::bytes::spec_u64_to_le_bytes(i64_bits(d)) + seq![0x2Bu8],
    }
}

/// Canonical encoding of a value, in write order.
pub open spec fn enc(a: SpecValue) -> Seq<u8>
    decreases a,
{
    match a {
        SpecValue::Undefined => seq![0xFCu8],
        SpecValue::Null => seq![0x00u8],
        SpecValue::Bool(b) => if b {
            seq![0x05u8]
        } else {
            seq![0x04u8]
        },
        SpecValue::Int(i) => int_bytes(i) + seq![int_prefix(i)],
        SpecValue::UInt(u) => uint_bytes(u) + seq![uint_prefix(u)],
        SpecValue::Float(f) => float_bytes(f) + seq![float_prefix(f)],
        SpecValue::Str(s) => prefix::frame(prefix::STRING, encode_utf8(s)),
        SpecValue::Bytes(b) => prefix::frame(prefix::BYTES, b),
        SpecValue::Uuid(u) => u + seq![0x1Cu8],
        SpecValue::DateTime(s) => prefix::frame(prefix::DATETIME, encode_utf8(s)),
        SpecValue::Timestamp(t) => vstd::bytes::spec_u64_to_le_bytes(i64_bits(t)) + seq![0x27u8],
        SpecValue::Duration(d) => vstd::bytes::spec_u64_to_le_bytes(i64_bits(d)) + seq![0x2Bu8],
        SpecValue::Array(l) => prefix::frame(prefix::ARRAY, enc_list(l)),
        SpecValue::Object(es) => prefix::frame(prefix::OBJECT, enc_entries(es)),
        SpecValue::Json(s) => prefix::frame(prefix::WRAPPED_JSON, encode_utf8(s)),
        SpecValue::Meta(b) => prefix::frame(prefix::META, enc(*b)),
    }
}

/// Concatenated encodings of a sequence of values, in order.
pub open spec fn enc_list(l: Seq<SpecValue>) -> Seq<u8>
    decreases l,
{
    if l.len() == 0 {
        Seq::empty()
    } else {
        enc_list(l.drop_last()) + enc(l.last())
    }
}

/// Concatenated encodings of object entries: within each entry the value
/// comes first and its key follows, so a reverse reader meets the key
/// before the value.
pub open spec fn enc_entries(es: Seq<(SpecKey, SpecValue)>) -> Seq<u8>
    decreases es,
{
    if es.len() == 0 {
        Seq::empty()
    } else {
        enc_entries(es.drop_last()) + enc(es.last().1) + enc_key(es.last().0)
    }
}

/// Object entries are strictly ascending in key order (keys unique).
pub open spec fn entries_sorted(es: Seq<(SpecKey, SpecValue)>) -> bool {
    forall|i: int, j: int| 0 <= i < j < es.len() ==> key_lt(es[i].0, es[j].0)
}

/// Structural well-formedness of a ghost key.
pub open spec fn key_wf(k: SpecKey) -> bool {
    match k {
        SpecKey::Uuid(u) => u.len() == 16,
        _ => true,
    }
}

/// Structural well-formedness of a ghost value: UUIDs are sixteen octets
/// and object entries are sorted with unique keys.
pub open spec fn spec_value_wf(a: SpecValue) -> bool
    decreases a,
{
    match a {
        SpecValue::Uuid(u) => u.len() == 16,
        SpecValue::Array(l) => forall|i: int| 0 <= i < l.len() ==> spec_value_wf(#[trigger] l[i]),
        SpecValue::Object(es) => entries_sorted(es) && forall|i: int|
            0 <= i < es.len() ==> key_wf(#[trigger] es[i].0) && spec_value_wf(es[i].1),
        SpecValue::Meta(b) => spec_value_wf(*b),
        _ => true,
    }
}

/// Every length or value field a stream of this value carries fits the
/// eight-byte size class, so the encoding is faithful.
pub open spec fn sizes_ok(a: SpecValue) -> bool
    decreases a,
{
    match a {
        SpecValue::Str(s) => encode_utf8(s).len() <= u64::MAX,
        SpecValue::Bytes(b) => b.len() <= u64::MAX,
        SpecValue::DateTime(s) => encode_utf8(s).len() <= u64::MAX,
        SpecValue::Json(s) => encode_utf8(s).len() <= u64::MAX,
        SpecValue::Array(l) => enc_list(l).len() <= u64::MAX && forall|i: int|
            0 <= i < l.len() ==> sizes_ok(#[trigger] l[i]),
        SpecValue::Object(es) => enc_entries(es).len() <= u64::MAX && forall|i: int|
            0 <= i < es.len() ==> key_sizes_ok(#[trigger] es[i].0) && sizes_ok(es[i].1),
        SpecValue::Meta(b) => enc(*b).len() <= u64::MAX && sizes_ok(*b),
        _ => true,
    }
}

/// Size bound for keys.
pub open spec fn key_sizes_ok(k: SpecKey) -> bool {
    match k {
        SpecKey::Str(s) => encode_utf8(s).len() <= u64::MAX,
        SpecKey::Bytes(b) => b.len() <= u64::MAX,
        SpecKey::DateTime(s) => encode_utf8(s).len() <= u64::MAX,
        _ => true,
    }
}

/// Well-formedness of an executable value, stated over its ghost view.
pub open spec fn value_wf(v: Value) -> bool {
    spec_value_wf(abs_value(v))
}

/// The ghost view of a list matches the views of its elements.
pub proof fn lemma_abs_list_props(l: Seq<Value>)
    ensures
        abs_list(l).len() == l.len(),
        forall|i: int| 0 <= i < l.len() ==> abs_list(l)[i] == abs_value(#[trigger] l[i]),
    decreases l,
{
    if l.len() > 0 {
        lemma_abs_list_props(l.drop_last());
        assert forall|i: int| 0 <= i < l.len() implies abs_list(l)[i] == abs_value(
            #[trigger] l[i],
        ) by {
            if i < l.len() - 1 {
                assert(l.drop_last()[i] == l[i]);
            }
        }
    }
}

/// The ghost view of an entry list matches the views of its entries.
pub proof fn lemma_abs_entries_props(es: Seq<(KeyValue, Value)>)
    ensures
        abs_entries(es).len() == es.len(),
        forall|i: int|
            0 <= i < es.len() ==> abs_entries(es)[i] == (
                abs_key(#[trigger] es[i].0),
                abs_value(es[i].1),
            ),
    decreases es,
{
    if es.len() > 0 {
        lemma_abs_entries_props(es.drop_last());
        assert forall|i: int| 0 <= i < es.len() implies abs_entries(es)[i] == (
            abs_key(#[trigger] es[i].0),
            abs_value(es[i].1),
        ) by {
            if i < es.len() - 1 {
                assert(es.drop_last()[i] == es[i]);
            }
        }
    }
}

/// Extending a list by one element appends that element's encoding.
pub proof fn lemma_enc_list_snoc(l: Seq<SpecValue>, k: int)
    requires
        0 <= k < l.len(),
    ensures
        enc_list(l.take(k + 1)) == enc_list(l.take(k)) + enc(l[k]),
{
    let t = l.take(k + 1);
    assert(t.drop_last() =~= l.take(k));
    assert(t.last() == l[k]);
}

/// Extending an entry list by one entry appends that entry's value and
/// key encodings.
pub proof fn lemma_enc_entries_snoc(es: Seq<(SpecKey, SpecValue)>, k: int)
    requires
        0 <= k < es.len(),
    ensures
        enc_entries(es.take(k + 1)) == enc_entries(es.take(k)) + enc(es[k].1) + enc_key(es[k].0),
{
    let t = es.take(k + 1);
    assert(t.drop_last() =~= es.take(k));
    assert(t.last() == es[k]);
}


/// Canonical encoding: two values with the same mathematical view — equal
/// contents with object entries in the same iteration order — have the
/// same canonical encoding, so the serializer emits byte-identical
/// streams for them.
pub proof fn lemma_canonical_encoding(x: Value, y: Value)
    requires
        abs_value(x) == abs_value(y),
    ensures
        enc(abs_value(x)) == enc(abs_value(y)),
{
}

/// An encoding is never empty.
pub proof fn lemma_enc_len_pos(a: SpecValue)
    ensures
        enc(a).len() >= 1,
    decreases a,
{
}

/// The prefix byte an encoding ends with: its family plus its size class.
pub open spec fn enc_prefix_byte(a: SpecValue) -> u8 {
    match a {
        SpecValue::Undefined => 0xFCu8,
        SpecValue::Null => 0x00u8,
        SpecValue::Bool(b) => if b {
            0x05u8
        } else {
            0x04u8
        },
        SpecValue::Int(i) => int_prefix(i),
        SpecValue::UInt(u) => uint_prefix(u),
        SpecValue::Float(f) => float_prefix(f),
        SpecValue::Str(s) => (0x14 + prefix::size_class_of(encode_utf8(s).len())) as u8,
        SpecValue::Bytes(b) => (0x18 + prefix::size_class_of(b.len())) as u8,
        SpecValue::Uuid(_) => 0x1Cu8,
        SpecValue::DateTime(s) => (0x20 + prefix::size_class_of(encode_utf8(s).len())) as u8,
        SpecValue::Timestamp(_) => 0x27u8,
        SpecValue::Duration(_) => 0x2Bu8,
        SpecValue::Array(l) => (0x2C + prefix::size_class_of(enc_list(l).len())) as u8,
        SpecValue::Object(es) => (0x30 + prefix::size_class_of(enc_entries(es).len())) as u8,
        SpecValue::Json(s) => (0x34 + prefix::size_class_of(encode_utf8(s).len())) as u8,
        SpecValue::Meta(b) => (0x38 + prefix::size_class_of(enc(*b).len())) as u8,
    }
}

/// An encoding ends with the value's prefix byte.
pub proof fn lemma_enc_shape(a: SpecValue)
    ensures
        enc(a).len() >= 1,
        enc(a).last() == enc_prefix_byte(a),
{
    match a {
        SpecValue::Str(s) => {
            prefix::lemma_header_len(prefix::STRING, encode_utf8(s).len());
        },
        SpecValue::Bytes(b) => {
            prefix::lemma_header_len(prefix::BYTES, b.len());
        },
        SpecValue::DateTime(s) => {
            prefix::lemma_header_len(prefix::DATETIME, encode_utf8(s).len());
        },
        SpecValue::Json(s) => {
            prefix::lemma_header_len(prefix::WRAPPED_JSON, encode_utf8(s).len());
        },
        SpecValue::Array(l) => {
            prefix::lemma_header_len(prefix::ARRAY, enc_list(l).len());
        },
        SpecValue::Object(es) => {
            prefix::lemma_header_len(prefix::OBJECT, enc_entries(es).len());
        },
        SpecValue::Meta(b) => {
            prefix::lemma_header_len(prefix::META, enc(*b).len());
        },
        SpecValue::Int(i) => {
            vstd::bytes::lemma_auto_spec_u16_to_from_le_bytes();
            vstd::bytes::lemma_auto_spec_u32_to_from_le_bytes();
            vstd::bytes::lemma_auto_spec_u64_to_from_le_bytes();
        },
        SpecValue::UInt(u) => {
            vstd::bytes::lemma_auto_spec_u16_to_from_le_bytes();
            vstd::bytes::lemma_auto_spec_u32_to_from_le_bytes();
            vstd::bytes::lemma_auto_spec_u64_to_from_le_bytes();
        },
        SpecValue::Float(f) => {
            vstd::bytes::lemma_auto_spec_u16_to_from_le_bytes();
            vstd::bytes::lemma_auto_spec_u32_to_from_le_bytes();
            vstd::bytes::lemma_auto_spec_u64_to_from_le_bytes();
        },
        SpecValue::Timestamp(_) => {
            vstd::bytes::lemma_auto_spec_u64_to_from_le_bytes();
        },
        SpecValue::Duration(_) => {
            vstd::bytes::lemma_auto_spec_u64_to_from_le_bytes();
        },
        _ => {},
    }
}

/// A key embedded among values: keys share the value encodings.
pub open spec fn key_embed(k: SpecKey) -> SpecValue {
    match k {
        SpecKey::Undefined => SpecValue::Undefined,
        SpecKey::Null => SpecValue::Null,
        SpecKey::Bool(b) => SpecValue::Bool(b),
        SpecKey::Int(i) => SpecValue::Int(i),
        SpecKey::UInt(u) => SpecValue::UInt(u),
        SpecKey::Float(f) => SpecValue::Float(f),
        SpecKey::Str(s) => SpecValue::Str(s),
        SpecKey::Bytes(b) => SpecValue::Bytes(b),
        SpecKey::Uuid(u) => SpecValue::Uuid(u),
        SpecKey::DateTime(s) => SpecValue::DateTime(s),
        SpecKey::Timestamp(t) => SpecValue::Timestamp(t),
        SpecKey::Duration(d) => SpecValue::Duration(d),
    }
}

/// A key encodes exactly as the value it embeds to, and embedding keeps
/// well-formedness and size bounds.
pub proof fn lemma_key_embed(k: SpecKey)
    ensures
        enc(key_embed(k)) == enc_key(k),
        key_wf(k) ==> spec_value_wf(key_embed(k)),
        key_sizes_ok(k) ==> sizes_ok(key_embed(k)),
{
}

/// An encoded key is never empty.
pub proof fn lemma_enc_key_len_pos(k: SpecKey)
    ensures
        enc_key(k).len() >= 1,
{
}

} // verus!
