//! Ordered key/value container backing OBJECT values.
//!
//! Entries are kept strictly ascending in a total order over keys, so
//! iteration order — and therefore the encoded field order of an OBJECT —
//! is reproducible: two maps holding equal entries encode identically.
//!
//! The order ranks key shapes first and then compares payloads: integers
//! and times by value, floats by their bit patterns, strings and text by
//! their UTF-8 bytes, byte strings lexicographically.

use vstd::prelude::*;

use crate::value::num::{Float, Int, UInt};
use crate::value::value::{abs_key, KeyValue, SpecKey, Value};
use vstd::utf8::{encode_utf8, encode_utf8_decode_utf8};

verus! {

/// Sign of an integer: -1, 0 or 1.
pub open spec fn sgn(x: int) -> int {
    if x < 0 {
        -1
    } else if x == 0 {
        0
    } else {
        1
    }
}

/// Lexicographic comparison of byte sequences: -1, 0 or 1.
pub open spec fn lex_cmp(a: Seq<u8>, b: Seq<u8>) -> int
    decreases a.len(),
{
    if a.len() == 0 && b.len() == 0 {
        0
    } else if a.len() == 0 {
        -1
    } else if b.len() == 0 {
        1
    } else if a[0] < b[0] {
        -1
    } else if a[0] > b[0] {
        1
    } else {
        lex_cmp(a.drop_first(), b.drop_first())
    }
}

/// Rank of a key shape; shapes compare by rank before payload.
pub open spec fn key_rank(k: SpecKey) -> int {
    match k {
        SpecKey::Undefined => 0,
        SpecKey::Null => 1,
        SpecKey::Bool(_) => 2,
        SpecKey::Int(_) => 3,
        SpecKey::UInt(_) => 4,
        SpecKey::Float(_) => 5,
        SpecKey::Str(_) => 6,
        SpecKey::Bytes(_) => 7,
        SpecKey::Uuid(_) => 8,
        SpecKey::DateTime(_) => 9,
        SpecKey::Timestamp(_) => 10,
        SpecKey::Duration(_) => 11,
    }
}

/// Width rank of a signed integer.
pub open spec fn int_rank(i: crate::value::num::Int) -> int {
    match i {
        crate::value::num::Int::I8(_) => 0,
        crate::value::num::Int::I16(_) => 1,
        crate::value::num::Int::I32(_) => 2,
        crate::value::num::Int::I64(_) => 3,
    }
}

/// Numeric payload of a signed integer.
pub open spec fn int_val(i: crate::value::num::Int) -> int {
    match i {
        crate::value::num::Int::I8(v) => v as int,
        crate::value::num::Int::I16(v) => v as int,
        crate::value::num::Int::I32(v) => v as int,
        crate::value::num::Int::I64(v) => v as int,
    }
}

/// Width rank of an unsigned integer.
pub open spec fn uint_rank(u: crate::value::num::UInt) -> int {
    match u {
        crate::value::num::UInt::U8(_) => 0,
        crate::value::num::UInt::U16(_) => 1,
        crate::value::num::UInt::U32(_) => 2,
        crate::value::num::UInt::U64(_) => 3,
    }
}

/// Numeric payload of an unsigned integer.
pub open spec fn uint_val(u: crate::value::num::UInt) -> int {
    match u {
        crate::value::num::UInt::U8(v) => v as int,
        crate::value::num::UInt::U16(v) => v as int,
        crate::value::num::UInt::U32(v) => v as int,
        crate::value::num::UInt::U64(v) => v as int,
    }
}

/// Width rank of a float-bits value.
pub open spec fn float_rank(f: crate::value::num::Float) -> int {
    match f {
        crate::value::num::Float::F16(_) => 0,
        crate::value::num::Float::F32(_) => 1,
        crate::value::num::Float::F64(_) => 2,
    }
}

/// Bit payload of a float-bits value.
pub open spec fn float_val(f: crate::value::num::Float) -> int {
    match f {
        crate::value::num::Float::F16(v) => v as int,
        crate::value::num::Float::F32(v) => v as int,
        crate::value::num::Float::F64(v) => v as int,
    }
}

/// Total order on keys: -1, 0 or 1.
pub open spec fn key_cmp(a: SpecKey, b: SpecKey) -> int {
    if key_rank(a) != key_rank(b) {
        sgn(key_rank(a) - key_rank(b))
    } else {
        match (a, b) {
            (SpecKey::Bool(x), SpecKey::Bool(y)) => {
                let xi: int = if x {
                    1
                } else {
                    0
                };
                let yi: int = if y {
                    1
                } else {
                    0
                };
                sgn(xi - yi)
            },
            (SpecKey::Int(x), SpecKey::Int(y)) => if int_rank(x) != int_rank(y) {
                sgn(int_rank(x) - int_rank(y))
            } else {
                sgn(int_val(x) - int_val(y))
            },
            (SpecKey::UInt(x), SpecKey::UInt(y)) => if uint_rank(x) != uint_rank(y) {
                sgn(uint_rank(x) - uint_rank(y))
            } else {
                sgn(uint_val(x) - uint_val(y))
            },
            (SpecKey::Float(x), SpecKey::Float(y)) => if float_rank(x) != float_rank(y) {
                sgn(float_rank(x) - float_rank(y))
            } else {
                sgn(float_val(x) - float_val(y))
            },
            (SpecKey::Str(x), SpecKey::Str(y)) => lex_cmp(encode_utf8(x), encode_utf8(y)),
            (SpecKey::Bytes(x), SpecKey::Bytes(y)) => lex_cmp(x, y),
            (SpecKey::Uuid(x), SpecKey::Uuid(y)) => lex_cmp(x, y),
            (SpecKey::DateTime(x), SpecKey::DateTime(y)) => lex_cmp(
                encode_utf8(x),
                encode_utf8(y),
            ),
            (SpecKey::Timestamp(x), SpecKey::Timestamp(y)) => sgn(x - y),
            (SpecKey::Duration(x), SpecKey::Duration(y)) => sgn(x - y),
            _ => 0,
        }
    }
}

/// Strict order on keys.
pub open spec fn key_lt(a: SpecKey, b: SpecKey) -> bool {
    key_cmp(a, b) == -1
}

/// Lexicographic comparison is antisymmetric, separates equal sequences,
/// and stays within -1..=1.
pub proof fn lemma_lex_props(a: Seq<u8>, b: Seq<u8>)
    ensures
        lex_cmp(a, b) == -lex_cmp(b, a),
        lex_cmp(a, b) == 0 ==> a == b,
        -1 <= lex_cmp(a, b) <= 1,
    decreases a.len(),
{
    if a.len() > 0 && b.len() > 0 && a[0] == b[0] {
        lemma_lex_props(a.drop_first(), b.drop_first());
        if lex_cmp(a, b) == 0 {
            assert(a.drop_first() == b.drop_first());
            assert forall|i: int| 0 <= i < a.len() implies a[i] == b[i] by {
                if i > 0 {
                    assert(a[i] == a.drop_first()[i - 1]);
                    assert(b[i] == b.drop_first()[i - 1]);
                }
            }
            assert(a =~= b);
        }
    }
}

/// Lexicographic comparison is transitive.
pub proof fn lemma_lex_trans(a: Seq<u8>, b: Seq<u8>, c: Seq<u8>)
    requires
        lex_cmp(a, b) == -1,
        lex_cmp(b, c) == -1,
    ensures
        lex_cmp(a, c) == -1,
    decreases a.len(),
{
    if a.len() > 0 && b.len() > 0 && c.len() > 0 {
        if a[0] == b[0] && b[0] == c[0] {
            lemma_lex_trans(a.drop_first(), b.drop_first(), c.drop_first());
        }
    }
}

/// The key order is antisymmetric, separates distinct keys, and stays
/// within -1..=1.
pub proof fn lemma_key_cmp_props(a: SpecKey, b: SpecKey)
    ensures
        key_cmp(a, b) == -key_cmp(b, a),
        key_cmp(a, b) == 0 ==> a == b,
        -1 <= key_cmp(a, b) <= 1,
{
    if key_rank(a) == key_rank(b) {
        match (a, b) {
            (SpecKey::Str(x), SpecKey::Str(y)) => {
                lemma_lex_props(encode_utf8(x), encode_utf8(y));
                if key_cmp(a, b) == 0 {
                    encode_utf8_decode_utf8(x);
                    encode_utf8_decode_utf8(y);
                }
            },
            (SpecKey::DateTime(x), SpecKey::DateTime(y)) => {
                lemma_lex_props(encode_utf8(x), encode_utf8(y));
                if key_cmp(a, b) == 0 {
                    encode_utf8_decode_utf8(x);
                    encode_utf8_decode_utf8(y);
                }
            },
            (SpecKey::Bytes(x), SpecKey::Bytes(y)) => {
                lemma_lex_props(x, y);
            },
            (SpecKey::Uuid(x), SpecKey::Uuid(y)) => {
                lemma_lex_props(x, y);
            },
            _ => {},
        }
    }
}

/// The key order is transitive.
pub proof fn lemma_key_lt_trans(a: SpecKey, b: SpecKey, c: SpecKey)
    requires
        key_lt(a, b),
        key_lt(b, c),
    ensures
        key_lt(a, c),
{
    if key_rank(a) == key_rank(b) && key_rank(b) == key_rank(c) {
        match (a, b) {
            (SpecKey::Str(x), SpecKey::Str(y)) => {
                if let SpecKey::Str(z) = c {
                    lemma_lex_trans(encode_utf8(x), encode_utf8(y), encode_utf8(z));
                }
            },
            (SpecKey::DateTime(x), SpecKey::DateTime(y)) => {
                if let SpecKey::DateTime(z) = c {
                    lemma_lex_trans(encode_utf8(x), encode_utf8(y), encode_utf8(z));
                }
            },
            (SpecKey::Bytes(x), SpecKey::Bytes(y)) => {
                if let SpecKey::Bytes(z) = c {
                    lemma_lex_trans(x, y, z);
                }
            },
            (SpecKey::Uuid(x), SpecKey::Uuid(y)) => {
                if let SpecKey::Uuid(z) = c {
                    lemma_lex_trans(x, y, z);
                }
            },
            _ => {},
        }
    }
}

/// An ordered map from keys to values, the payload of an OBJECT.
#[derive(Debug, PartialEq, Eq, Hash)]
pub struct ObjectMap {
    /// Entries in strictly ascending key order.
    pub entries: Vec<(KeyValue, Value)>,
}

/// The entries are strictly ascending in key order, so keys are unique.
pub open spec fn map_sorted(m: ObjectMap) -> bool {
    forall|i: int, j: int|
        0 <= i < j < m.entries@.len() ==> key_lt(
            abs_key(#[trigger] m.entries@[i].0),
            abs_key(#[trigger] m.entries@[j].0),
        )
}

/// The value stored under a key, if any.
pub open spec fn seq_lookup(es: Seq<(KeyValue, Value)>, sk: SpecKey) -> Option<Value>
    decreases es.len(),
{
    if es.len() == 0 {
        Option::None
    } else if abs_key(es.last().0) == sk {
        Option::Some(es.last().1)
    } else {
        seq_lookup(es.drop_last(), sk)
    }
}

/// The entry list after storing `v` under `k`: an existing entry with an
/// equal key is replaced in place, otherwise the new pair goes where the
/// order puts it.
pub open spec fn spec_insert_entries(
    es: Seq<(KeyValue, Value)>,
    k: KeyValue,
    v: Value,
) -> Seq<(KeyValue, Value)>
    decreases es.len(),
{
    if es.len() == 0 {
        seq![(k, v)]
    } else if key_cmp(abs_key(es.last().0), abs_key(k)) == -1 {
        es + seq![(k, v)]
    } else if key_cmp(abs_key(es.last().0), abs_key(k)) == 0 {
        es.drop_last() + seq![(k, v)]
    } else {
        spec_insert_entries(es.drop_last(), k, v) + seq![es.last()]
    }
}

/// The entry list after removing the key `sk`, if present.
pub open spec fn spec_remove_entries(
    es: Seq<(KeyValue, Value)>,
    sk: SpecKey,
) -> Seq<(KeyValue, Value)>
    decreases es.len(),
{
    if es.len() == 0 {
        es
    } else if abs_key(es.last().0) == sk {
        es.drop_last()
    } else {
        spec_remove_entries(es.drop_last(), sk) + seq![es.last()]
    }
}


/// Compares two signed 64-bit values: -1, 0 or 1.
fn cmp_i64(a: i64, b: i64) -> (o: i8)
    ensures
        o as int == sgn(a - b),
{
    if a < b {
        -1
    } else if a == b {
        0
    } else {
        1
    }
}

/// Compares two unsigned 64-bit values: -1, 0 or 1.
fn cmp_u64(a: u64, b: u64) -> (o: i8)
    ensures
        o as int == sgn(a - b),
{
    if a < b {
        -1
    } else if a == b {
        0
    } else {
        1
    }
}

/// The comparison of two byte sequences sharing a prefix is decided past
/// that prefix.
proof fn lemma_lex_cmp_skip(a: Seq<u8>, b: Seq<u8>, i: int)
    requires
        0 <= i <= a.len(),
        i <= b.len(),
        a.take(i) == b.take(i),
    ensures
        lex_cmp(a, b) == lex_cmp(a.skip(i), b.skip(i)),
    decreases i,
{
    if i > 0 {
        assert(a.take(i)[0] == a[0]);
        assert(b.take(i)[0] == b[0]);
        assert(a.drop_first().take(i - 1) =~= a.take(i).drop_first());
        assert(b.drop_first().take(i - 1) =~= b.take(i).drop_first());
        lemma_lex_cmp_skip(a.drop_first(), b.drop_first(), i - 1);
        assert(a.drop_first().skip(i - 1) =~= a.skip(i));
        assert(b.drop_first().skip(i - 1) =~= b.skip(i));
    } else {
        assert(a.skip(0) =~= a);
        assert(b.skip(0) =~= b);
    }
}

/// Lexicographic byte comparison: -1, 0 or 1.
fn lex_compare(a: &[u8], b: &[u8]) -> (o: i8)
    ensures
        o as int == lex_cmp(a@, b@),
{
    let an = a.len();
    let bn = b.len();
    let n = if an < bn {
        an
    } else {
        bn
    };
    let mut i: usize = 0;
    while i < n
        invariant
            0 <= i <= n,
            n <= an == a@.len(),
            n <= bn == b@.len(),
            a@.take(i as int) =~= b@.take(i as int),
        decreases n - i,
    {
        let x = a[i];
        let y = b[i];
        proof {
            lemma_lex_cmp_skip(a@, b@, i as int);
            assert(a@.skip(i as int)[0] == a@[i as int]);
            assert(b@.skip(i as int)[0] == b@[i as int]);
        }
        if x < y {
            return -1;
        }
        if x > y {
            return 1;
        }
        proof {
            assert forall|j: int|
                0 <= j < i + 1 implies #[trigger] a@.take(i as int + 1)[j] == b@.take(
                i as int + 1,
            )[j] by {
                if j < i {
                    assert(a@.take(i as int)[j] == b@.take(i as int)[j]);
                }
            }
            assert(a@.take(i as int + 1) =~= b@.take(i as int + 1));
        }
        i = i + 1;
    }
    proof {
        lemma_lex_cmp_skip(a@, b@, n as int);
    }
    if an == bn {
        0
    } else if an < bn {
        proof {
            assert(a@.skip(n as int).len() == 0);
            assert(b@.skip(n as int).len() > 0);
        }
        -1
    } else {
        proof {
            assert(b@.skip(n as int).len() == 0);
            assert(a@.skip(n as int).len() > 0);
        }
        1
    }
}

/// Rank of a key's shape.
fn rank_of(k: &KeyValue) -> (r: u8)
    ensures
        r as int == key_rank(abs_key(*k)),
{
    match k {
        KeyValue::Undefined => 0,
        KeyValue::Null => 1,
        KeyValue::Bool(_) => 2,
        KeyValue::Int(_) => 3,
        KeyValue::UInt(_) => 4,
        KeyValue::Float(_) => 5,
        KeyValue::String(_) => 6,
        KeyValue::Bytes(_) => 7,
        KeyValue::UUID(_) => 8,
        KeyValue::DateTime(_) => 9,
        KeyValue::Timestamp(_) => 10,
        KeyValue::Duration(_) => 11,
    }
}

/// Compares two keys in the total key order: -1, 0 or 1.
pub fn key_compare(a: &KeyValue, b: &KeyValue) -> (o: i8)
    ensures
        o as int == key_cmp(abs_key(*a), abs_key(*b)),
{
    let ra = rank_of(a);
    let rb = rank_of(b);
    if ra < rb {
        return -1;
    }
    if ra > rb {
        return 1;
    }
    match (a, b) {
        (KeyValue::Undefined, KeyValue::Undefined) => 0,
        (KeyValue::Null, KeyValue::Null) => 0,
        (KeyValue::Bool(x), KeyValue::Bool(y)) => {
            let xi: i64 = if *x {
                1
            } else {
                0
            };
            let yi: i64 = if *y {
                1
            } else {
                0
            };
            cmp_i64(xi, yi)
        },
        (KeyValue::Int(x), KeyValue::Int(y)) => {
            let rx: u64 = match x {
                Int::I8(_) => 0,
                Int::I16(_) => 1,
                Int::I32(_) => 2,
                Int::I64(_) => 3,
            };
            let ry: u64 = match y {
                Int::I8(_) => 0,
                Int::I16(_) => 1,
                Int::I32(_) => 2,
                Int::I64(_) => 3,
            };
            if rx != ry {
                cmp_u64(rx, ry)
            } else {
                let vx: i64 = match x {
                    Int::I8(v) => *v as i64,
                    Int::I16(v) => *v as i64,
                    Int::I32(v) => *v as i64,
                    Int::I64(v) => *v,
                };
                let vy: i64 = match y {
                    Int::I8(v) => *v as i64,
                    Int::I16(v) => *v as i64,
                    Int::I32(v) => *v as i64,
                    Int::I64(v) => *v,
                };
                cmp_i64(vx, vy)
            }
        },
        (KeyValue::UInt(x), KeyValue::UInt(y)) => {
            let rx: u64 = match x {
                UInt::U8(_) => 0,
                UInt::U16(_) => 1,
                UInt::U32(_) => 2,
                UInt::U64(_) => 3,
            };
            let ry: u64 = match y {
                UInt::U8(_) => 0,
                UInt::U16(_) => 1,
                UInt::U32(_) => 2,
                UInt::U64(_) => 3,
            };
            if rx != ry {
                cmp_u64(rx, ry)
            } else {
                let vx: u64 = match x {
                    UInt::U8(v) => *v as u64,
                    UInt::U16(v) => *v as u64,
                    UInt::U32(v) => *v as u64,
                    UInt::U64(v) => *v,
                };
                let vy: u64 = match y {
                    UInt::U8(v) => *v as u64,
                    UInt::U16(v) => *v as u64,
                    UInt::U32(v) => *v as u64,
                    UInt::U64(v) => *v,
                };
                cmp_u64(vx, vy)
            }
        },
        (KeyValue::Float(x), KeyValue::Float(y)) => {
            let rx: u64 = match x {
                Float::F16(_) => 0,
                Float::F32(_) => 1,
                Float::F64(_) => 2,
            };
            let ry: u64 = match y {
                Float::F16(_) => 0,
                Float::F32(_) => 1,
                Float::F64(_) => 2,
            };
            if rx != ry {
                cmp_u64(rx, ry)
            } else {
                let vx: u64 = match x {
                    Float::F16(v) => *v as u64,
                    Float::F32(v) => *v as u64,
                    Float::F64(v) => *v,
                };
                let vy: u64 = match y {
                    Float::F16(v) => *v as u64,
                    Float::F32(v) => *v as u64,
                    Float::F64(v) => *v,
                };
                cmp_u64(vx, vy)
            }
        },
        (KeyValue::String(x), KeyValue::String(y)) => lex_compare(
            x.as_str().as_bytes(),
            y.as_str().as_bytes(),
        ),
        (KeyValue::Bytes(x), KeyValue::Bytes(y)) => lex_compare(x.as_slice(), y.as_slice()),
        (KeyValue::UUID(x), KeyValue::UUID(y)) => lex_compare(x.as_slice(), y.as_slice()),
        (KeyValue::DateTime(x), KeyValue::DateTime(y)) => lex_compare(
            x.as_str().as_bytes(),
            y.as_str().as_bytes(),
        ),
        (KeyValue::Timestamp(x), KeyValue::Timestamp(y)) => cmp_i64(*x, *y),
        (KeyValue::Duration(x), KeyValue::Duration(y)) => cmp_i64(*x, *y),
        _ => {
            proof {
                assert(false);
            }
            0
        },
    }
}

/// A key equals itself under the order.
pub proof fn lemma_key_cmp_refl(a: SpecKey)
    ensures
        key_cmp(a, a) == 0,
{
    lemma_key_cmp_props(a, a);
}

/// Where the order puts a fresh key, the insertion spec splices it in.
proof fn lemma_spec_insert_at(es: Seq<(KeyValue, Value)>, k: KeyValue, v: Value, i: int)
    requires
        0 <= i <= es.len(),
        forall|j: int|
            i <= j < es.len() ==> key_cmp(abs_key(#[trigger] es[j].0), abs_key(k)) == 1,
        i > 0 ==> key_cmp(abs_key(es[i - 1].0), abs_key(k)) == -1,
    ensures
        spec_insert_entries(es, k, v) =~= es.take(i) + seq![(k, v)] + es.skip(i),
    decreases es.len(),
{
    if es.len() == 0 {
    } else if i == es.len() {
        assert(key_cmp(abs_key(es.last().0), abs_key(k)) == -1);
        assert(es.take(i) =~= es);
        assert(es.skip(i) =~= Seq::<(KeyValue, Value)>::empty());
    } else {
        assert(key_cmp(abs_key(es.last().0), abs_key(k)) == 1);
        let d = es.drop_last();
        assert forall|j: int|
            i <= j < d.len() implies key_cmp(abs_key(#[trigger] d[j].0), abs_key(k)) == 1 by {
            assert(d[j] == es[j]);
        }
        if i > 0 {
            assert(d[i - 1] == es[i - 1]);
        }
        lemma_spec_insert_at(d, k, v, i);
        assert(d.take(i) =~= es.take(i));
        assert(d.skip(i) + seq![es.last()] =~= es.skip(i));
        assert(spec_insert_entries(es, k, v) =~= es.take(i) + seq![(k, v)] + es.skip(i));
    }
}

/// Where a key is already present, the insertion spec replaces its entry.
proof fn lemma_spec_insert_replace(es: Seq<(KeyValue, Value)>, k: KeyValue, v: Value, i: int)
    requires
        0 <= i < es.len(),
        abs_key(es[i].0) == abs_key(k),
        forall|j: int|
            i < j < es.len() ==> key_cmp(abs_key(#[trigger] es[j].0), abs_key(k)) == 1,
    ensures
        spec_insert_entries(es, k, v) =~= es.take(i) + seq![(k, v)] + es.skip(i + 1),
    decreases es.len(),
{
    if i == es.len() - 1 {
        lemma_key_cmp_refl(abs_key(k));
        assert(key_cmp(abs_key(es.last().0), abs_key(k)) == 0);
        assert(es.drop_last() =~= es.take(i));
        assert(es.skip(i + 1) =~= Seq::<(KeyValue, Value)>::empty());
    } else {
        assert(key_cmp(abs_key(es.last().0), abs_key(k)) == 1);
        let d = es.drop_last();
        assert(d[i] == es[i]);
        assert forall|j: int|
            i < j < d.len() implies key_cmp(abs_key(#[trigger] d[j].0), abs_key(k)) == 1 by {
            assert(d[j] == es[j]);
        }
        lemma_spec_insert_replace(d, k, v, i);
        assert(d.take(i) =~= es.take(i));
        assert(d.skip(i + 1) + seq![es.last()] =~= es.skip(i + 1));
        assert(spec_insert_entries(es, k, v) =~= es.take(i) + seq![(k, v)] + es.skip(i + 1));
    }
}

/// A key that matches no entry looks up to nothing.
proof fn lemma_seq_lookup_absent(es: Seq<(KeyValue, Value)>, sk: SpecKey)
    requires
        forall|j: int| 0 <= j < es.len() ==> abs_key(#[trigger] es[j].0) != sk,
    ensures
        seq_lookup(es, sk) is None,
    decreases es.len(),
{
    if es.len() > 0 {
        let d = es.drop_last();
        assert forall|j: int| 0 <= j < d.len() implies abs_key(#[trigger] d[j].0) != sk by {
            assert(d[j] == es[j]);
        }
        lemma_seq_lookup_absent(d, sk);
    }
}

/// A key that matches exactly the entry at `i` looks up to that value.
proof fn lemma_seq_lookup_found(es: Seq<(KeyValue, Value)>, sk: SpecKey, i: int)
    requires
        0 <= i < es.len(),
        abs_key(es[i].0) == sk,
        forall|j: int| i < j < es.len() ==> abs_key(#[trigger] es[j].0) != sk,
    ensures
        seq_lookup(es, sk) == Some(es[i].1),
    decreases es.len(),
{
    if i == es.len() - 1 {
    } else {
        let d = es.drop_last();
        assert(d[i] == es[i]);
        assert forall|j: int| i < j < d.len() implies abs_key(#[trigger] d[j].0) != sk by {
            assert(d[j] == es[j]);
        }
        lemma_seq_lookup_found(d, sk, i);
    }
}

/// After `spec_append_entries(a, b)`, every entry of `b` has been stored
/// into `a`, later entries of `b` overriding earlier equal keys.
pub open spec fn spec_append_entries(
    a: Seq<(KeyValue, Value)>,
    b: Seq<(KeyValue, Value)>,
) -> Seq<(KeyValue, Value)>
    decreases b.len(),
{
    if b.len() == 0 {
        a
    } else {
        spec_append_entries(spec_insert_entries(a, b.last().0, b.last().1), b.drop_last())
    }
}

impl ObjectMap {
    /// An empty map.
    pub fn new() -> (m: Self)
        ensures
            m.entries@.len() == 0,
            map_sorted(m),
    {
        ObjectMap { entries: Vec::new() }
    }

    /// An empty map; the capacity hint only pre-allocates.
    pub fn with_capacity(capacity: usize) -> (m: Self)
        ensures
            m.entries@.len() == 0,
            map_sorted(m),
    {
        ObjectMap { entries: Vec::with_capacity(capacity) }
    }

    /// Removes every entry.
    pub fn clear(&mut self)
        ensures
            final(self).entries@.len() == 0,
            map_sorted(*final(self)),
    {
        self.entries.clear();
    }

    /// How many entries the map holds.
    pub fn len(&self) -> (n: usize)
        ensures
            n == self.entries@.len(),
    {
        self.entries.len()
    }

    /// The entry at iteration position `i` (ascending key order).
    pub fn pair_at(&self, i: usize) -> (p: &(KeyValue, Value))
        requires
            i < self.entries@.len(),
        ensures
            *p == self.entries@[i as int],
    {
        &self.entries[i]
    }

    /// The position holding a key equal to `key`, scanning linearly.
    fn find(&self, key: &KeyValue) -> (r: Option<usize>)
        ensures
            r matches Some(i) ==> i < self.entries@.len() && abs_key(self.entries@[i as int].0)
                == abs_key(*key),
            r is None ==> forall|j: int|
                0 <= j < self.entries@.len() ==> abs_key(#[trigger] self.entries@[j].0)
                    != abs_key(*key),
    {
        let n = self.entries.len();
        let mut i: usize = 0;
        while i < n
            invariant
                i <= n,
                n == self.entries@.len(),
                forall|j: int|
                    0 <= j < i ==> abs_key(#[trigger] self.entries@[j].0) != abs_key(*key),
            decreases n - i,
        {
            let c = key_compare(&self.entries[i].0, key);
            proof {
                lemma_key_cmp_props(abs_key(self.entries@[i as int].0), abs_key(*key));
            }
            if c == 0 {
                return Some(i);
            }
            i = i + 1;
        }
        None
    }

    /// The value stored under `key`, if any.
    pub fn get(&self, key: &KeyValue) -> (r: Option<&Value>)
        ensures
            r matches Some(v) ==> exists|i: int|
                0 <= i < self.entries@.len() && abs_key(#[trigger] self.entries@[i].0)
                    == abs_key(*key) && *v == self.entries@[i].1,
            r is None ==> forall|i: int|
                0 <= i < self.entries@.len() ==> abs_key(#[trigger] self.entries@[i].0)
                    != abs_key(*key),
    {
        match self.find(key) {
            Some(i) => Some(&self.entries[i].1),
            None => None,
        }
    }

    /// Whether any entry's key equals `key`.
    pub fn contains_key(&self, key: &KeyValue) -> (r: bool)
        ensures
            r == exists|i: int|
                0 <= i < self.entries@.len() && abs_key(#[trigger] self.entries@[i].0) == abs_key(
                    *key,
                ),
    {
        match self.find(key) {
            Some(_) => true,
            None => false,
        }
    }

    /// The stored key and value matching `key`, if any.
    pub fn get_key_value(&self, key: &KeyValue) -> (r: Option<(&KeyValue, &Value)>)
        ensures
            r matches Some(p) ==> exists|i: int|
                0 <= i < self.entries@.len() && abs_key(#[trigger] self.entries@[i].0)
                    == abs_key(*key) && *p.0 == self.entries@[i].0 && *p.1 == self.entries@[i].1,
            r is None ==> forall|i: int|
                0 <= i < self.entries@.len() ==> abs_key(#[trigger] self.entries@[i].0)
                    != abs_key(*key),
    {
        match self.find(key) {
            Some(i) => {
                let p = &self.entries[i];
                Some((&p.0, &p.1))
            },
            None => None,
        }
    }

    /// Stores `value` under `key`: replaces the entry holding an equal key
    /// or splices a new entry in at its ordered place, returning any value
    /// the key previously held.
    pub fn insert(&mut self, key: KeyValue, value: Value) -> (r: Option<Value>)
        requires
            map_sorted(*old(self)),
        ensures
            map_sorted(*final(self)),
            final(self).entries@ == spec_insert_entries(old(self).entries@, key, value),
            r == seq_lookup(old(self).entries@, abs_key(key)),
    {
        let ghost oes = self.entries@;
        let ghost sk = abs_key(key);
        let n = self.entries.len();
        let mut i: usize = n;
        let mut at_cmp: i8 = -1;
        while i > 0
            invariant_except_break
                i <= n,
                n == self.entries@.len(),
                self.entries@ == oes,
                sk == abs_key(key),
                map_sorted(*self),
                forall|j: int| i <= j < n ==> key_cmp(abs_key(#[trigger] oes[j].0), sk) == 1,
            ensures
                i <= n,
                n == self.entries@.len(),
                self.entries@ == oes,
                sk == abs_key(key),
                map_sorted(*self),
                forall|j: int| i <= j < n ==> key_cmp(abs_key(#[trigger] oes[j].0), sk) == 1,
                i > 0 ==> at_cmp as int == key_cmp(abs_key(oes[i - 1].0), sk) && at_cmp != 1,
            decreases i,
        {
            let c = key_compare(&self.entries[i - 1].0, &key);
            if c != 1 {
                at_cmp = c;
                break;
            }
            i = i - 1;
        }
        if i > 0 && at_cmp == 0 {
            proof {
                lemma_key_cmp_props(abs_key(oes[i - 1].0), sk);
            }
            let old_pair = self.entries.remove(i - 1);
            self.entries.insert(i - 1, (key, value));
            proof {
                lemma_spec_insert_replace(oes, key, value, i - 1);
                assert(self.entries@ =~= oes.take(i - 1) + seq![(key, value)] + oes.skip(
                    i as int,
                ));
                assert forall|p: int, q: int|
                    0 <= p < q < self.entries@.len() implies key_lt(
                    abs_key(#[trigger] self.entries@[p].0),
                    abs_key(#[trigger] self.entries@[q].0),
                ) by {
                    lemma_insert_shape_sorted(oes, key, value, i - 1, i as int, p, q);
                }
                assert forall|j: int|
                    i - 1 < j < oes.len() implies abs_key(#[trigger] oes[j].0) != sk by {
                    lemma_key_cmp_props(abs_key(oes[j].0), sk);
                }
                lemma_seq_lookup_found(oes, sk, i - 1);
            }
            return Some(old_pair.1);
        }
        proof {
            if i > 0 {
                lemma_key_cmp_props(abs_key(oes[i - 1].0), sk);
            }
        }
        self.entries.insert(i, (key, value));
        proof {
            lemma_spec_insert_at(oes, key, value, i as int);
            assert(self.entries@ =~= oes.take(i as int) + seq![(key, value)] + oes.skip(
                i as int,
            ));
            assert forall|p: int, q: int|
                0 <= p < q < self.entries@.len() implies key_lt(
                abs_key(#[trigger] self.entries@[p].0),
                abs_key(#[trigger] self.entries@[q].0),
            ) by {
                lemma_insert_shape_sorted(oes, key, value, i as int, i as int, p, q);
            }
            assert forall|j: int| 0 <= j < oes.len() implies abs_key(#[trigger] oes[j].0)
                != sk by {
                lemma_key_cmp_props(abs_key(oes[j].0), sk);
                if j < i {
                    if j < i - 1 {
                        assert(key_lt(abs_key(oes[j].0), abs_key(oes[i - 1].0)));
                        lemma_key_cmp_props(abs_key(oes[j].0), abs_key(oes[i - 1].0));
                        lemma_key_lt_trans(abs_key(oes[j].0), abs_key(oes[i - 1].0), sk);
                    }
                }
            }
            lemma_seq_lookup_absent(oes, sk);
        }
        None
    }

    /// Removes the entry whose key equals `key`, returning its value.
    pub fn remove(&mut self, key: &KeyValue) -> (r: Option<Value>)
        requires
            map_sorted(*old(self)),
        ensures
            map_sorted(*final(self)),
            r matches Some(v) ==> exists|i: int|
                #![auto]
                0 <= i < old(self).entries@.len() && abs_key(old(self).entries@[i].0) == abs_key(
                    *key,
                ) && v == old(self).entries@[i].1 && final(self).entries@ == old(
                    self,
                ).entries@.take(i) + old(self).entries@.skip(i + 1),
            r is None ==> final(self).entries@ == old(self).entries@ && forall|i: int|
                0 <= i < old(self).entries@.len() ==> abs_key(#[trigger] old(self).entries@[i].0)
                    != abs_key(*key),
    {
        match self.remove_entry(key) {
            Some(p) => Some(p.1),
            None => None,
        }
    }

    /// Removes and returns the entry whose key equals `key`.
    pub fn remove_entry(&mut self, key: &KeyValue) -> (r: Option<(KeyValue, Value)>)
        requires
            map_sorted(*old(self)),
        ensures
            map_sorted(*final(self)),
            r matches Some(p) ==> exists|i: int|
                #![auto]
                0 <= i < old(self).entries@.len() && abs_key(old(self).entries@[i].0) == abs_key(
                    *key,
                ) && p == old(self).entries@[i] && final(self).entries@ == old(
                    self,
                ).entries@.take(i) + old(self).entries@.skip(i + 1),
            r is None ==> final(self).entries@ == old(self).entries@ && forall|i: int|
                0 <= i < old(self).entries@.len() ==> abs_key(#[trigger] old(self).entries@[i].0)
                    != abs_key(*key),
    {
        let ghost oes = self.entries@;
        match self.find(key) {
            Some(i) => {
                let p = self.entries.remove(i);
                proof {
                    assert(self.entries@ =~= oes.take(i as int) + oes.skip(i as int + 1));
                    assert forall|a: int, b: int|
                        0 <= a < b < self.entries@.len() implies key_lt(
                        abs_key(#[trigger] self.entries@[a].0),
                        abs_key(#[trigger] self.entries@[b].0),
                    ) by {
                        let ia = if a < i { a } else { a + 1 };
                        let ib = if b < i { b } else { b + 1 };
                        assert(self.entries@[a] == oes[ia]);
                        assert(self.entries@[b] == oes[ib]);
                    }
                }
                Some(p)
            },
            None => None,
        }
    }

    /// Moves all of `other`'s entries into this map, leaving `other`
    /// empty; on equal keys `other`'s value wins.
    pub fn append(&mut self, other: &mut Self)
        requires
            map_sorted(*old(self)),
        ensures
            map_sorted(*final(self)),
            final(self).entries@ == spec_append_entries(
                old(self).entries@,
                old(other).entries@,
            ),
            final(other).entries@.len() == 0,
    {
        loop
            invariant
                map_sorted(*self),
                spec_append_entries(self.entries@, other.entries@) == spec_append_entries(
                    old(self).entries@,
                    old(other).entries@,
                ),
            ensures
                map_sorted(*self),
                other.entries@.len() == 0,
                spec_append_entries(self.entries@, other.entries@) == spec_append_entries(
                    old(self).entries@,
                    old(other).entries@,
                ),
            decreases other.entries@.len(),
        {
            let ghost pre_other = other.entries@;
            match other.entries.pop() {
                Some(pair) => {
                    proof {
                        assert(other.entries@ =~= pre_other.drop_last());
                    }
                    let _ = self.insert(pair.0, pair.1);
                },
                None => {
                    break;
                },
            }
        }
    }
}

/// Any two positions of an entry list with one entry spliced in at a
/// boundary between smaller and larger keys stay strictly ordered.
proof fn lemma_insert_shape_sorted(
    es: Seq<(KeyValue, Value)>,
    k: KeyValue,
    v: Value,
    at: int,
    resume: int,
    p: int,
    q: int,
)
    requires
        0 <= at <= resume <= es.len(),
        resume - at <= 1,
        forall|a: int, b: int|
            0 <= a < b < es.len() ==> key_lt(
                abs_key(#[trigger] es[a].0),
                abs_key(#[trigger] es[b].0),
            ),
        forall|j: int| resume <= j < es.len() ==> key_cmp(abs_key(#[trigger] es[j].0), abs_key(k))
            == 1,
        at > 0 ==> key_cmp(abs_key(es[at - 1].0), abs_key(k)) == -1,
        0 <= p < q < es.take(at).len() + 1 + es.skip(resume).len(),
    ensures
        key_lt(
            abs_key((es.take(at) + seq![(k, v)] + es.skip(resume))[p].0),
            abs_key((es.take(at) + seq![(k, v)] + es.skip(resume))[q].0),
        ),
{
    let news = es.take(at) + seq![(k, v)] + es.skip(resume);
    let sk = abs_key(k);
    assert forall|j: int| 0 <= j < news.len() implies news[j] == (if j < at {
        es[j]
    } else if j == at {
        (k, v)
    } else {
        es[j - 1 - at + resume]
    }) by {}
    if p < at && q < at {
    } else if p < at && q == at {
        if p < at - 1 {
            lemma_key_lt_trans(abs_key(es[p].0), abs_key(es[at - 1].0), sk);
        }
    } else if p < at && q > at {
    } else if p == at {
        let jq = q - 1 - at + resume;
        lemma_key_cmp_props(abs_key(es[jq].0), sk);
    } else {
    }
}

} // verus!
