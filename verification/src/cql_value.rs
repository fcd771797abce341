//! CQL values: their wire encoding and their literals.

use crate::bytes::{
    be16, be32, be64, be_i32, be_len, copy_bytes, get_i32, get_u16, get_u32, get_u64, i16_of,
    i32_of, i64_of, lemma_be16_back, lemma_be32_back, lemma_be64_back, lemma_i16_back,
    lemma_i32_back, lemma_i64_back, lemma_len_back, put_bytes, put_i32, put_len, put_u16, put_u32,
    put_u64, same_bytes, un_be,
};
use crate::schema::ColumnType;
use crate::text::{
    chars_of, decimal, index_in, integer_in, join3, lemma_index_in, lemma_index_is, merge_quotes,
    parse_signed, push_decimal, remove_char, same_text, single_quotes, string_from_utf8, text_of,
    trim, trimmed, unquote, unquoted, upper_text, uppercase, utf8_error_text, without,
};
use vstd::prelude::*;
use vstd::utf8::{
    decode_utf8, decode_utf8_encode_utf8, encode_utf8, encode_utf8_decode_utf8,
    encode_utf8_valid_utf8, valid_utf8,
};

verus! {

/// An IP address, as its octets.
#[derive(Debug, Clone, Copy, PartialEq, Eq)]
pub enum Inet {
    V4([u8; 4]),
    V6([u8; 16]),
}

impl View for Inet {
    type V = Seq<u8>;

    open spec fn view(&self) -> Seq<u8> {
        match self {
            Inet::V4(a) => a@,
            Inet::V6(a) => a@,
        }
    }
}

/// A CQL value. `Float` and `Double` hold the bits of their numbers.
#[derive(Debug)]
pub enum Value {
    Null,
    Int(i32),
    BigInt(i64),
    SmallInt(i16),
    TinyInt(i8),
    Float(u32),
    Double(u64),
    Boolean(bool),
    Text(String),
    Blob(Vec<u8>),
    Timestamp(i64),
    Uuid([u8; 16]),
    Inet(Inet),
    SetOf(Vec<Value>),
    List(Vec<Value>),
    MapOf(Vec<(Value, Value)>),
}

/// What a value is, mathematically.
#[verifier::ext_equal]
pub enum ValueView {
    Null,
    Int(i32),
    BigInt(i64),
    SmallInt(i16),
    TinyInt(i8),
    Float(u32),
    Double(u64),
    Boolean(bool),
    Text(Seq<char>),
    Blob(Seq<u8>),
    Timestamp(i64),
    Uuid(Seq<u8>),
    Inet(Seq<u8>),
    SetOf(Seq<ValueView>),
    List(Seq<ValueView>),
    MapOf(Seq<(ValueView, ValueView)>),
}

impl View for Value {
    type V = ValueView;

    open spec fn view(&self) -> ValueView {
        value_view(*self)
    }
}

pub open spec fn value_view(v: Value) -> ValueView
    decreases v,
{
    match v {
        Value::Null => ValueView::Null,
        Value::Int(x) => ValueView::Int(x),
        Value::BigInt(x) => ValueView::BigInt(x),
        Value::SmallInt(x) => ValueView::SmallInt(x),
        Value::TinyInt(x) => ValueView::TinyInt(x),
        Value::Float(x) => ValueView::Float(x),
        Value::Double(x) => ValueView::Double(x),
        Value::Boolean(x) => ValueView::Boolean(x),
        Value::Text(x) => ValueView::Text(x@),
        Value::Blob(x) => ValueView::Blob(x@),
        Value::Timestamp(x) => ValueView::Timestamp(x),
        Value::Uuid(x) => ValueView::Uuid(x@),
        Value::Inet(x) => ValueView::Inet(x@),
        Value::SetOf(x) => ValueView::SetOf(value_views(x@)),
        Value::List(x) => ValueView::List(value_views(x@)),
        Value::MapOf(x) => ValueView::MapOf(pair_views(x@)),
    }
}

pub open spec fn value_views(vs: Seq<Value>) -> Seq<ValueView>
    decreases vs,
{
    if vs.len() == 0 {
        Seq::empty()
    } else {
        value_views(vs.drop_last()).push(value_view(vs.last()))
    }
}

pub open spec fn pair_views(es: Seq<(Value, Value)>) -> Seq<(ValueView, ValueView)>
    decreases es,
{
    if es.len() == 0 {
        Seq::empty()
    } else {
        pair_views(es.drop_last()).push((value_view(es.last().0), value_view(es.last().1)))
    }
}

pub proof fn lemma_value_views(vs: Seq<Value>)
    ensures
        value_views(vs).len() == vs.len(),
        forall|i: int| 0 <= i < vs.len() ==> #[trigger] value_views(vs)[i] == vs[i]@,
    decreases vs.len(),
{
    if vs.len() > 0 {
        lemma_value_views(vs.drop_last());
        assert forall|i: int| 0 <= i < vs.len() implies #[trigger] value_views(vs)[i]
            == vs[i]@ by {
            if i < vs.len() - 1 {
                assert(value_views(vs.drop_last())[i] == vs.drop_last()[i]@);
            }
        }
    }
}

pub proof fn lemma_value_views_push(vs: Seq<Value>, v: Value)
    ensures
        value_views(vs.push(v)) == value_views(vs).push(v@),
{
    assert(vs.push(v).drop_last() =~= vs);
}

pub proof fn lemma_pair_views_push(es: Seq<(Value, Value)>, e: (Value, Value))
    ensures
        pair_views(es.push(e)) == pair_views(es).push((e.0@, e.1@)),
{
    assert(es.push(e).drop_last() =~= es);
}

/// The bytes of a value, without a length prefix.
pub open spec fn raw(v: ValueView) -> Seq<u8>
    decreases v, 0nat,
{
    match v {
        ValueView::Null => Seq::empty(),
        ValueView::Int(x) => be32(x as u32),
        ValueView::BigInt(x) => be64(x as u64),
        ValueView::SmallInt(x) => be16(x as u16),
        ValueView::TinyInt(x) => seq![x as u8],
        ValueView::Float(x) => be32(x),
        ValueView::Double(x) => be64(x),
        ValueView::Boolean(x) => seq![
            if x {
                1u8
            } else {
                0u8
            },
        ],
        ValueView::Text(x) => encode_utf8(x),
        ValueView::Blob(x) => x,
        ValueView::Timestamp(x) => be64(x as u64),
        ValueView::Uuid(x) => x,
        ValueView::Inet(x) => x,
        ValueView::SetOf(x) => be_len(x.len()) + wire_all(x),
        ValueView::List(x) => be_len(x.len()) + wire_all(x),
        ValueView::MapOf(x) => be_len(x.len()) + wire_pairs(x),
    }
}

/// A value on the wire: a length of -1 for null, otherwise the length of the
/// bytes and the bytes.
pub open spec fn wire(v: ValueView) -> Seq<u8>
    decreases v, 1nat,
{
    match v {
        ValueView::Null => be_i32((-1) as i32),
        _ => be_len(raw(v).len()) + raw(v),
    }
}

/// Values on the wire, one after the other.
pub open spec fn wire_all(vs: Seq<ValueView>) -> Seq<u8>
    decreases vs, 0nat,
{
    if vs.len() == 0 {
        Seq::empty()
    } else {
        wire_all(vs.drop_last()) + wire(vs.last())
    }
}

/// Map entries on the wire: each key followed by its value.
pub open spec fn wire_pairs(es: Seq<(ValueView, ValueView)>) -> Seq<u8>
    decreases es, 0nat,
{
    if es.len() == 0 {
        Seq::empty()
    } else {
        wire_pairs(es.drop_last()) + (wire(es.last().0) + wire(es.last().1))
    }
}

fn put_values(values: &Vec<Value>, out: &mut Vec<u8>)
    ensures
        final(out)@ == old(out)@ + wire_all(value_views(values@)),
    decreases values, 2int,
{
    let ghost start = out@;
    let mut i: usize = 0;
    assert(values@.take(0) =~= Seq::<Value>::empty());
    assert(out@ =~= start + wire_all(value_views(values@.take(0))));
    while i < values.len()
        invariant
            i <= values@.len(),
            out@ == start + wire_all(value_views(values@.take(i as int))),
        decreases values@.len() - i,
    {
        values[i].write_wire(out);
        proof {
            let before = values@.take(i as int);
            assert(values@.take(i + 1) =~= before.push(values@[i as int]));
            lemma_value_views_push(before, values@[i as int]);
            assert(value_views(before).push(values@[i as int]@).drop_last() =~= value_views(
                before,
            ));
            assert(out@ =~= start + wire_all(value_views(values@.take(i + 1))));
        }
        i += 1;
    }
    assert(values@.take(i as int) =~= values@);
}

fn put_pairs(entries: &Vec<(Value, Value)>, out: &mut Vec<u8>)
    ensures
        final(out)@ == old(out)@ + wire_pairs(pair_views(entries@)),
    decreases entries, 2int,
{
    let ghost start = out@;
    let mut i: usize = 0;
    assert(entries@.take(0) =~= Seq::<(Value, Value)>::empty());
    assert(out@ =~= start + wire_pairs(pair_views(entries@.take(0))));
    while i < entries.len()
        invariant
            i <= entries@.len(),
            out@ == start + wire_pairs(pair_views(entries@.take(i as int))),
        decreases entries@.len() - i,
    {
        entries[i].0.write_wire(out);
        entries[i].1.write_wire(out);
        proof {
            let before = entries@.take(i as int);
            let e = entries@[i as int];
            assert(entries@.take(i + 1) =~= before.push(e));
            lemma_pair_views_push(before, e);
            assert(pair_views(before).push((e.0@, e.1@)).drop_last() =~= pair_views(before));
            assert(out@ =~= start + wire_pairs(pair_views(entries@.take(i + 1))));
        }
        i += 1;
    }
    assert(entries@.take(i as int) =~= entries@);
}

impl Value {
    /// Appends the value on the wire to `out`.
    pub fn write_wire(&self, out: &mut Vec<u8>)
        ensures
            final(out)@ == old(out)@ + wire(self@),
        decreases self, 1int,
    {
        match self {
            Value::Null => put_i32(out, -1),
            _ => {
                let payload: Vec<u8> = self.raw_bytes();
                put_len(out, payload.len());
                put_bytes(out, &payload);
                assert(out@ =~= old(out)@ + wire(self@));
            },
        }
    }

    pub fn to_wire(&self) -> (out: Vec<u8>)
        ensures
            out@ == wire(self@),
    {
        let mut out: Vec<u8> = Vec::new();
        self.write_wire(&mut out);
        assert(out@ =~= wire(self@));
        out
    }

    /// The bytes of the value, without a length prefix.
    pub fn raw_bytes(&self) -> (out: Vec<u8>)
        ensures
            out@ == raw(self@),
        decreases self, 0int,
    {
        let mut out: Vec<u8> = Vec::new();
        match self {
            Value::Null => {},
            Value::Int(v) => put_u32(&mut out, *v as u32),
            Value::BigInt(v) => put_u64(&mut out, *v as u64),
            Value::SmallInt(v) => put_u16(&mut out, *v as u16),
            Value::TinyInt(v) => out.push(*v as u8),
            Value::Float(v) => put_u32(&mut out, *v),
            Value::Double(v) => put_u64(&mut out, *v),
            Value::Boolean(v) => out.push(
                if *v {
                    1
                } else {
                    0
                },
            ),
            Value::Text(v) => put_bytes(&mut out, v.as_str().as_bytes()),
            Value::Blob(v) => put_bytes(&mut out, v),
            Value::Timestamp(v) => put_u64(&mut out, *v as u64),
            Value::Uuid(v) => put_bytes(&mut out, v.as_slice()),
            Value::Inet(v) => match v {
                Inet::V4(a) => put_bytes(&mut out, a.as_slice()),
                Inet::V6(a) => put_bytes(&mut out, a.as_slice()),
            },
            Value::SetOf(values) => {
                proof {
                    lemma_value_views(values@);
                }
                put_len(&mut out, values.len());
                put_values(values, &mut out);
            },
            Value::List(values) => {
                proof {
                    lemma_value_views(values@);
                }
                put_len(&mut out, values.len());
                put_values(values, &mut out);
            },
            Value::MapOf(entries) => {
                proof {
                    lemma_pair_views(entries@);
                }
                put_len(&mut out, entries.len());
                put_pairs(entries, &mut out);
            },
        }
        assert(out@ =~= raw(self@));
        out
    }
}

pub proof fn lemma_pair_views(es: Seq<(Value, Value)>)
    ensures
        pair_views(es).len() == es.len(),
        forall|i: int|
            0 <= i < es.len() ==> #[trigger] pair_views(es)[i] == (es[i].0@, es[i].1@),
    decreases es.len(),
{
    if es.len() > 0 {
        lemma_pair_views(es.drop_last());
        assert forall|i: int| 0 <= i < es.len() implies #[trigger] pair_views(es)[i] == (
            es[i].0@,
            es[i].1@,
        ) by {
            if i < es.len() - 1 {
                assert(pair_views(es.drop_last())[i] == (
                    es.drop_last()[i].0@,
                    es.drop_last()[i].1@,
                ));
            }
        }
    }
}

/// Why bytes are no value of a type.
#[derive(Debug)]
pub enum DecodeError {
    /// A `tinyint` or `boolean` without a byte.
    Empty,
    /// Anything else, in words.
    Text(String),
}

/// What a decoding error says.
pub enum DecodeErrorView {
    Empty,
    Text(Seq<char>),
}

impl View for DecodeError {
    type V = DecodeErrorView;

    open spec fn view(&self) -> DecodeErrorView {
        match self {
            DecodeError::Empty => DecodeErrorView::Empty,
            DecodeError::Text(s) => DecodeErrorView::Text(s@),
        }
    }
}

impl DecodeError {
    /// The error in words.
    pub fn message(&self) -> (r: String)
        ensures
            r@ == decode_error_text(self@),
    {
        match self {
            DecodeError::Empty => "value has no bytes".to_owned(),
            DecodeError::Text(s) => s.clone(),
        }
    }
}

pub open spec fn decode_error_text(e: DecodeErrorView) -> Seq<char> {
    match e {
        DecodeErrorView::Empty => "value has no bytes"@,
        DecodeErrorView::Text(s) => s,
    }
}

/// Bytes behind their length prefix.
pub open spec fn be_raw(bytes: Seq<u8>) -> Seq<u8> {
    be_len(bytes.len()) + bytes
}

/// The outcome of decoding.
pub type Decoded = Result<ValueView, DecodeErrorView>;

pub open spec fn text_error(s: Seq<char>) -> DecodeErrorView {
    DecodeErrorView::Text(s)
}

/// What goes wrong in a payload of another length than its type has.
pub open spec fn size_error() -> Decoded {
    Err(text_error("could not convert slice to array"@))
}

/// How deeply a type is nested.
pub open spec fn type_depth(t: ColumnType) -> nat
    decreases t,
{
    match t {
        ColumnType::SetOf(e) => 1 + type_depth(*e),
        ColumnType::List(e) => 1 + type_depth(*e),
        ColumnType::MapOf(k, v) => 1 + deeper(type_depth(*k), type_depth(*v)),
        _ => 0,
    }
}

pub open spec fn deeper(a: nat, b: nat) -> nat {
    if a < b {
        b
    } else {
        a
    }
}

/// The value that bytes on the wire denote: a length prefix and a payload of
/// that length, or a negative length for null.
pub open spec fn decode(data: Seq<u8>, t: ColumnType) -> Decoded
    decreases type_depth(t), 1nat, 0nat,
{
    if data.len() < 4 {
        Err(text_error("value is shorter than its length prefix"@))
    } else {
        let len = i32_of(data.take(4));
        if len < 0 {
            Ok(ValueView::Null)
        } else if data.len() != 4 + len {
            Err(text_error("value length prefix does not match payload"@))
        } else {
            decode_payload(data.skip(4), t)
        }
    }
}

/// The value that a payload denotes.
pub open spec fn decode_payload(p: Seq<u8>, t: ColumnType) -> Decoded
    decreases type_depth(t), 0nat, 0nat,
{
    match t {
        ColumnType::Int => if p.len() == 4 {
            Ok(ValueView::Int(i32_of(p)))
        } else {
            size_error()
        },
        ColumnType::BigInt => if p.len() == 8 {
            Ok(ValueView::BigInt(i64_of(p)))
        } else {
            size_error()
        },
        ColumnType::SmallInt => if p.len() == 2 {
            Ok(ValueView::SmallInt(i16_of(p)))
        } else {
            size_error()
        },
        ColumnType::TinyInt => if p.len() == 0 {
            Err(DecodeErrorView::Empty)
        } else {
            Ok(ValueView::TinyInt(p[0] as i8))
        },
        ColumnType::Float => if p.len() == 4 {
            Ok(ValueView::Float(un_be(p) as u32))
        } else {
            size_error()
        },
        ColumnType::Double => if p.len() == 8 {
            Ok(ValueView::Double(un_be(p) as u64))
        } else {
            size_error()
        },
        ColumnType::Boolean => if p.len() == 0 {
            Err(DecodeErrorView::Empty)
        } else {
            Ok(ValueView::Boolean(p[0] != 0))
        },
        ColumnType::Text => if valid_utf8(p) {
            Ok(ValueView::Text(decode_utf8(p)))
        } else {
            Err(text_error(utf8_error_text(p)))
        },
        ColumnType::Blob => Ok(ValueView::Blob(p)),
        ColumnType::Timestamp => if p.len() == 8 {
            Ok(ValueView::Timestamp(i64_of(p)))
        } else {
            size_error()
        },
        ColumnType::Uuid => if p.len() == 16 {
            Ok(ValueView::Uuid(p))
        } else {
            size_error()
        },
        ColumnType::Inet => if p.len() == 4 || p.len() == 16 {
            Ok(ValueView::Inet(p))
        } else {
            Err(text_error("invalid inet address length "@ + decimal(p.len())))
        },
        ColumnType::SetOf(e) => if p.len() < 4 {
            Err(text_error("set value too short"@))
        } else if i32_of(p.take(4)) < 0 {
            Err(text_error("negative set element count"@))
        } else {
            match decode_items(p, 4, i32_of(p.take(4)) as nat, *e, "set value truncated"@) {
                Ok(vs) => Ok(ValueView::SetOf(vs)),
                Err(x) => Err(x),
            }
        },
        ColumnType::List(e) => if p.len() < 4 {
            Err(text_error("list value too short"@))
        } else if i32_of(p.take(4)) < 0 {
            Err(text_error("negative list element count"@))
        } else {
            match decode_items(p, 4, i32_of(p.take(4)) as nat, *e, "list value truncated"@) {
                Ok(vs) => Ok(ValueView::List(vs)),
                Err(x) => Err(x),
            }
        },
        ColumnType::MapOf(k, v) => if p.len() < 4 {
            Err(text_error("map value too short"@))
        } else if i32_of(p.take(4)) < 0 {
            Err(text_error("negative map entry count"@))
        } else {
            match decode_entries(p, 4, i32_of(p.take(4)) as nat, *k, *v) {
                Ok(es) => Ok(ValueView::MapOf(es)),
                Err(x) => Err(x),
            }
        },
    }
}

/// The end of the item that starts at `at`, unless the payload ends inside it
/// or its length is negative.
pub open spec fn item_end(p: Seq<u8>, at: int) -> Option<int> {
    if at + 4 > p.len() {
        None
    } else {
        let len = i32_of(p.subrange(at, at + 4));
        if len < 0 || at + 4 + len > p.len() {
            None
        } else {
            Some(at + 4 + len)
        }
    }
}

/// The `count` elements that start at `at`.
pub open spec fn decode_items(
    p: Seq<u8>,
    at: int,
    count: nat,
    e: ColumnType,
    truncated: Seq<char>,
) -> Result<Seq<ValueView>, DecodeErrorView>
    decreases type_depth(e), 2nat, count,
{
    if count == 0 {
        Ok(Seq::empty())
    } else {
        match item_end(p, at) {
            None => Err(text_error(truncated)),
            Some(end) => match decode(p.subrange(at, end), e) {
                Err(x) => Err(x),
                Ok(v) => match decode_items(p, end, (count - 1) as nat, e, truncated) {
                    Err(x) => Err(x),
                    Ok(vs) => Ok(seq![v] + vs),
                },
            },
        }
    }
}

/// The `count` entries that start at `at`.
pub open spec fn decode_entries(
    p: Seq<u8>,
    at: int,
    count: nat,
    k: ColumnType,
    v: ColumnType,
) -> Result<Seq<(ValueView, ValueView)>, DecodeErrorView>
    decreases deeper(type_depth(k), type_depth(v)), 2nat, count,
{
    if count == 0 {
        Ok(Seq::empty())
    } else {
        match decode_entry(p, at, k, v) {
            Err(x) => Err(x),
            Ok((entry, end)) => match decode_entries(p, end, (count - 1) as nat, k, v) {
                Err(x) => Err(x),
                Ok(es) => Ok(seq![entry] + es),
            },
        }
    }
}

/// The entry that starts at `at`, and where it ends.
pub open spec fn decode_entry(p: Seq<u8>, at: int, k: ColumnType, v: ColumnType) -> Result<
    ((ValueView, ValueView), int),
    DecodeErrorView,
>
    decreases deeper(type_depth(k), type_depth(v)), 1nat, 1nat,
{
    match item_end(p, at) {
        None => Err(text_error("map value truncated"@)),
        Some(mid) => match decode(p.subrange(at, mid), k) {
            Err(x) => Err(x),
            Ok(key) => match item_end(p, mid) {
                None => Err(text_error("map value truncated"@)),
                Some(end) => match decode(p.subrange(mid, end), v) {
                    Err(x) => Err(x),
                    Ok(val) => Ok(((key, val), end)),
                },
            },
        },
    }
}

/// The end of the item that starts at `at`.
fn find_item_end(p: &[u8], at: usize) -> (r: Option<usize>)
    requires
        at <= p@.len(),
    ensures
        match r {
            Some(end) => at + 4 <= end <= p@.len() && item_end(p@, at as int) == Some(end as int),
            None => item_end(p@, at as int) is None,
        },
{
    if p.len() - at < 4 {
        return None;
    }
    let len: i32 = get_i32(p, at);
    if len < 0 || len as usize > p.len() - at - 4 {
        return None;
    }
    Some(at + 4 + len as usize)
}

fn words(s: &str) -> (r: DecodeError)
    ensures
        r@ == text_error(s@),
{
    DecodeError::Text(s.to_owned())
}

/// What a result of decoding is, mathematically.
pub open spec fn decoded(r: Result<Value, DecodeError>) -> Decoded {
    match r {
        Ok(v) => Ok(v@),
        Err(e) => Err(e@),
    }
}

/// Checks that a payload has as many bytes as its type.
fn fixed_size(payload: &[u8], size: usize) -> (r: Result<(), DecodeError>)
    ensures
        r is Ok <==> payload@.len() == size,
        r matches Err(e) ==> Err::<ValueView, DecodeErrorView>(e@) == size_error(),
{
    if payload.len() == size {
        Ok(())
    } else {
        Err(words("could not convert slice to array"))
    }
}

fn four_bytes(p: &[u8]) -> (a: [u8; 4])
    requires
        p@.len() == 4,
    ensures
        a@ == p@,
{
    let a: [u8; 4] = [p[0], p[1], p[2], p[3]];
    assert(a@ =~= p@);
    a
}

fn sixteen_bytes(p: &[u8]) -> (a: [u8; 16])
    requires
        p@.len() == 16,
    ensures
        a@ == p@,
{
    let a: [u8; 16] = [
        p[0],
        p[1],
        p[2],
        p[3],
        p[4],
        p[5],
        p[6],
        p[7],
        p[8],
        p[9],
        p[10],
        p[11],
        p[12],
        p[13],
        p[14],
        p[15],
    ];
    assert(a@ =~= p@);
    a
}

/// The elements of a set or list whose count stands in the first four bytes.
fn take_items(p: &[u8], e: &ColumnType, truncated: &str) -> (r: Result<Vec<Value>, DecodeError>)
    requires
        p@.len() >= 4,
        i32_of(p@.take(4)) >= 0,
    ensures
        match r {
            Ok(vs) => decode_items(p@, 4, i32_of(p@.take(4)) as nat, *e, truncated@) == Ok::<
                Seq<ValueView>,
                DecodeErrorView,
            >(value_views(vs@)),
            Err(x) => decode_items(p@, 4, i32_of(p@.take(4)) as nat, *e, truncated@) == Err::<
                Seq<ValueView>,
                DecodeErrorView,
            >(x@),
        },
    decreases type_depth(*e), 2nat,
{
    assert(p@.subrange(0, 4) =~= p@.take(4));
    let count: i32 = get_i32(p, 0);
    let ghost all = decode_items(p@, 4, count as nat, *e, truncated@);
    let mut values: Vec<Value> = Vec::new();
    let mut at: usize = 4;
    let mut i: i32 = 0;
    assert(value_views(values@) =~= Seq::<ValueView>::empty());
    proof {
        match decode_items(p@, 4, count as nat, *e, truncated@) {
            Ok(rest) => assert(value_views(values@) + rest =~= rest),
            Err(_) => {},
        }
    }
    while i < count
        invariant
            0 <= i <= count,
            at <= p@.len(),
            count == i32_of(p@.take(4)),
            all == decode_items(p@, 4, count as nat, *e, truncated@),
            all == (match decode_items(p@, at as int, (count - i) as nat, *e, truncated@) {
                Ok(rest) => Ok(value_views(values@) + rest),
                Err(x) => Err(x),
            }),
        decreases count - i,
    {
        let end: usize = match find_item_end(p, at) {
            Some(end) => end,
            None => return Err(words(truncated)),
        };
        let item: &[u8] = &p[at..end];
        let v: Value = match Value::try_from_wire(item, e) {
            Ok(v) => v,
            Err(x) => return Err(x),
        };
        let ghost before = values@;
        values.push(v);
        proof {
            lemma_value_views_push(before, v);
            match decode_items(p@, end as int, (count - i - 1) as nat, *e, truncated@) {
                Ok(rest) => assert(value_views(values@) + rest =~= value_views(before) + (
                seq![v@] + rest)),
                Err(_) => {},
            }
        }
        at = end;
        i += 1;
    }
    assert(value_views(values@) + Seq::<ValueView>::empty() =~= value_views(values@));
    Ok(values)
}

/// The entries of a map whose count stands in the first four bytes.
fn take_entries(p: &[u8], k: &ColumnType, v: &ColumnType) -> (r: Result<
    Vec<(Value, Value)>,
    DecodeError,
>)
    requires
        p@.len() >= 4,
        i32_of(p@.take(4)) >= 0,
    ensures
        match r {
            Ok(es) => decode_entries(p@, 4, i32_of(p@.take(4)) as nat, *k, *v) == Ok::<
                Seq<(ValueView, ValueView)>,
                DecodeErrorView,
            >(pair_views(es@)),
            Err(x) => decode_entries(p@, 4, i32_of(p@.take(4)) as nat, *k, *v) == Err::<
                Seq<(ValueView, ValueView)>,
                DecodeErrorView,
            >(x@),
        },
    decreases deeper(type_depth(*k), type_depth(*v)), 2nat,
{
    assert(p@.subrange(0, 4) =~= p@.take(4));
    let count: i32 = get_i32(p, 0);
    let ghost all = decode_entries(p@, 4, count as nat, *k, *v);
    let mut entries: Vec<(Value, Value)> = Vec::new();
    let mut at: usize = 4;
    let mut i: i32 = 0;
    assert(pair_views(entries@) =~= Seq::<(ValueView, ValueView)>::empty());
    proof {
        match decode_entries(p@, 4, count as nat, *k, *v) {
            Ok(rest) => assert(pair_views(entries@) + rest =~= rest),
            Err(_) => {},
        }
    }
    while i < count
        invariant
            0 <= i <= count,
            at <= p@.len(),
            count == i32_of(p@.take(4)),
            all == decode_entries(p@, 4, count as nat, *k, *v),
            all == (match decode_entries(p@, at as int, (count - i) as nat, *k, *v) {
                Ok(rest) => Ok(pair_views(entries@) + rest),
                Err(x) => Err(x),
            }),
        decreases count - i,
    {
        let ghost here = decode_entry(p@, at as int, *k, *v);
        let mid: usize = match find_item_end(p, at) {
            Some(mid) => mid,
            None => return Err(words("map value truncated")),
        };
        let key: Value = match Value::try_from_wire(&p[at..mid], k) {
            Ok(key) => key,
            Err(x) => return Err(x),
        };
        let end: usize = match find_item_end(p, mid) {
            Some(end) => end,
            None => return Err(words("map value truncated")),
        };
        let val: Value = match Value::try_from_wire(&p[mid..end], v) {
            Ok(val) => val,
            Err(x) => return Err(x),
        };
        let ghost before = entries@;
        entries.push((key, val));
        proof {
            lemma_pair_views_push(before, (key, val));
            match decode_entries(p@, end as int, (count - i - 1) as nat, *k, *v) {
                Ok(rest) => assert(pair_views(entries@) + rest =~= pair_views(before) + (
                seq![(key@, val@)] + rest)),
                Err(_) => {},
            }
        }
        at = end;
        i += 1;
    }
    assert(pair_views(entries@) + Seq::<(ValueView, ValueView)>::empty() =~= pair_views(entries@));
    Ok(entries)
}

impl Value {
    /// The value that bytes on the wire denote.
    pub fn try_from_wire(data: &[u8], col_type: &ColumnType) -> (r: Result<Value, DecodeError>)
        ensures
            decoded(r) == decode(data@, *col_type),
        decreases type_depth(*col_type), 1nat,
    {
        if data.len() < 4 {
            return Err(words("value is shorter than its length prefix"));
        }
        assert(data@.subrange(0, 4) =~= data@.take(4));
        let len: i32 = get_i32(data, 0);
        if len < 0 {
            return Ok(Value::Null);
        }
        if data.len() - 4 != len as usize {
            return Err(words("value length prefix does not match payload"));
        }
        let payload: &[u8] = &data[4..data.len()];
        assert(payload@ =~= data@.skip(4));
        Value::from_payload(payload, col_type)
    }

    /// The value that a payload denotes.
    fn from_payload(p: &[u8], col_type: &ColumnType) -> (r: Result<Value, DecodeError>)
        ensures
            decoded(r) == decode_payload(p@, *col_type),
        decreases type_depth(*col_type), 0nat,
    {
        assert(p.len() == p@.len());
        assert(p@.subrange(0, p@.len() as int) =~= p@);
        match col_type {
            ColumnType::Int => match fixed_size(p, 4) {
                Ok(_) => Ok(Value::Int(get_i32(p, 0))),
                Err(e) => Err(e),
            },
            ColumnType::BigInt => match fixed_size(p, 8) {
                Ok(_) => Ok(Value::BigInt(get_u64(p, 0) as i64)),
                Err(e) => Err(e),
            },
            ColumnType::SmallInt => match fixed_size(p, 2) {
                Ok(_) => Ok(Value::SmallInt(get_u16(p, 0) as i16)),
                Err(e) => Err(e),
            },
            ColumnType::TinyInt => if p.len() == 0 {
                Err(DecodeError::Empty)
            } else {
                Ok(Value::TinyInt(p[0] as i8))
            },
            ColumnType::Float => match fixed_size(p, 4) {
                Ok(_) => Ok(Value::Float(get_u32(p, 0))),
                Err(e) => Err(e),
            },
            ColumnType::Double => match fixed_size(p, 8) {
                Ok(_) => Ok(Value::Double(get_u64(p, 0))),
                Err(e) => Err(e),
            },
            ColumnType::Boolean => if p.len() == 0 {
                Err(DecodeError::Empty)
            } else {
                Ok(Value::Boolean(p[0] != 0))
            },
            ColumnType::Text => match string_from_utf8(copy_bytes(p)) {
                Ok(s) => Ok(Value::Text(s)),
                Err(e) => Err(DecodeError::Text(e)),
            },
            ColumnType::Blob => Ok(Value::Blob(copy_bytes(p))),
            ColumnType::Timestamp => match fixed_size(p, 8) {
                Ok(_) => Ok(Value::Timestamp(get_u64(p, 0) as i64)),
                Err(e) => Err(e),
            },
            ColumnType::Uuid => match fixed_size(p, 16) {
                Ok(_) => Ok(Value::Uuid(sixteen_bytes(p))),
                Err(e) => Err(e),
            },
            ColumnType::Inet => if p.len() == 4 {
                Ok(Value::Inet(Inet::V4(four_bytes(p))))
            } else if p.len() == 16 {
                Ok(Value::Inet(Inet::V6(sixteen_bytes(p))))
            } else {
                let mut message: String = "invalid inet address length ".to_owned();
                push_decimal(&mut message, p.len() as u64);
                Err(DecodeError::Text(message))
            },
            ColumnType::SetOf(e) => {
                if p.len() < 4 {
                    return Err(words("set value too short"));
                }
                assert(p@.subrange(0, 4) =~= p@.take(4));
                if get_i32(p, 0) < 0 {
                    return Err(words("negative set element count"));
                }
                match take_items(p, e, "set value truncated") {
                    Ok(vs) => Ok(Value::SetOf(vs)),
                    Err(x) => Err(x),
                }
            },
            ColumnType::List(e) => {
                if p.len() < 4 {
                    return Err(words("list value too short"));
                }
                assert(p@.subrange(0, 4) =~= p@.take(4));
                if get_i32(p, 0) < 0 {
                    return Err(words("negative list element count"));
                }
                match take_items(p, e, "list value truncated") {
                    Ok(vs) => Ok(Value::List(vs)),
                    Err(x) => Err(x),
                }
            },
            ColumnType::MapOf(k, v) => {
                if p.len() < 4 {
                    return Err(words("map value too short"));
                }
                assert(p@.subrange(0, 4) =~= p@.take(4));
                if get_i32(p, 0) < 0 {
                    return Err(words("negative map entry count"));
                }
                match take_entries(p, k, v) {
                    Ok(es) => Ok(Value::MapOf(es)),
                    Err(x) => Err(x),
                }
            },
        }
    }

    /// The value that bytes on the wire denote. Not for a `tinyint` or
    /// `boolean` without a byte.
    pub fn from_wire(data: &[u8], col_type: &ColumnType) -> (r: Result<Value, String>)
        requires
            decode(data@, *col_type) != Err::<ValueView, DecodeErrorView>(DecodeErrorView::Empty),
        ensures
            match r {
                Ok(v) => decode(data@, *col_type) == Ok::<ValueView, DecodeErrorView>(v@),
                Err(e) => decode(data@, *col_type) == Err::<ValueView, DecodeErrorView>(
                    text_error(e@),
                ),
            },
    {
        match Value::try_from_wire(data, col_type) {
            Ok(v) => Ok(v),
            Err(e) => Err(e.message()),
        }
    }

    /// The value that bytes without a length prefix denote.
    pub fn try_from_raw_bytes(raw: &[u8], col_type: &ColumnType) -> (r: Result<Value, DecodeError>)
        ensures
            decoded(r) == decode(be_len(raw@.len()) + raw@, *col_type),
    {
        let mut data: Vec<u8> = Vec::new();
        put_len(&mut data, raw.len());
        put_bytes(&mut data, raw);
        assert(data@ =~= be_len(raw@.len()) + raw@);
        Value::try_from_wire(&data, col_type)
    }

    /// The value that bytes without a length prefix denote. Not for a
    /// `tinyint` or `boolean` without a byte.
    pub fn from_raw_bytes(raw: &[u8], col_type: &ColumnType) -> (r: Result<Value, String>)
        requires
            decode(be_len(raw@.len()) + raw@, *col_type) != Err::<ValueView, DecodeErrorView>(
                DecodeErrorView::Empty,
            ),
        ensures
            match r {
                Ok(v) => decode(be_len(raw@.len()) + raw@, *col_type) == Ok::<
                    ValueView,
                    DecodeErrorView,
                >(v@),
                Err(e) => decode(be_len(raw@.len()) + raw@, *col_type) == Err::<
                    ValueView,
                    DecodeErrorView,
                >(text_error(e@)),
            },
    {
        match Value::try_from_raw_bytes(raw, col_type) {
            Ok(v) => Ok(v),
            Err(e) => Err(e.message()),
        }
    }
}

/// Whether `v` is a value of type `t` other than null, with no null inside it,
/// and short enough for its length prefix.
pub open spec fn typed(v: ValueView, t: ColumnType) -> bool
    decreases t,
{
    &&& raw(v).len() <= i32::MAX
    &&& match t {
        ColumnType::Int => v is Int,
        ColumnType::BigInt => v is BigInt,
        ColumnType::SmallInt => v is SmallInt,
        ColumnType::TinyInt => v is TinyInt,
        ColumnType::Float => v is Float,
        ColumnType::Double => v is Double,
        ColumnType::Boolean => v is Boolean,
        ColumnType::Text => v is Text,
        ColumnType::Blob => v is Blob,
        ColumnType::Timestamp => v is Timestamp,
        ColumnType::Uuid => v matches ValueView::Uuid(b) && b.len() == 16,
        ColumnType::Inet => v matches ValueView::Inet(b) && (b.len() == 4 || b.len() == 16),
        ColumnType::SetOf(e) => v matches ValueView::SetOf(vs) && forall|i: int|
            0 <= i < vs.len() ==> typed(#[trigger] vs[i], *e),
        ColumnType::List(e) => v matches ValueView::List(vs) && forall|i: int|
            0 <= i < vs.len() ==> typed(#[trigger] vs[i], *e),
        ColumnType::MapOf(k, x) => v matches ValueView::MapOf(es) && forall|i: int|
            0 <= i < es.len() ==> typed((#[trigger] es[i]).0, *k) && typed(es[i].1, *x),
    }
}

proof fn lemma_wire_all_split(vs: Seq<ValueView>, i: int)
    requires
        0 <= i <= vs.len(),
    ensures
        wire_all(vs) == wire_all(vs.take(i)) + wire_all(vs.skip(i)),
    decreases vs.len(),
{
    if i == vs.len() {
        assert(vs.take(i) =~= vs);
        assert(vs.skip(i) =~= Seq::<ValueView>::empty());
        assert(wire_all(vs) =~= wire_all(vs) + Seq::<u8>::empty());
    } else {
        let init = vs.drop_last();
        lemma_wire_all_split(init, i);
        assert(init.take(i) =~= vs.take(i));
        assert(vs.skip(i).drop_last() =~= init.skip(i));
        assert(vs.skip(i).last() == vs.last());
        assert(wire_all(vs) =~= wire_all(vs.take(i)) + wire_all(vs.skip(i)));
    }
}

proof fn lemma_wire_pairs_split(es: Seq<(ValueView, ValueView)>, i: int)
    requires
        0 <= i <= es.len(),
    ensures
        wire_pairs(es) == wire_pairs(es.take(i)) + wire_pairs(es.skip(i)),
    decreases es.len(),
{
    if i == es.len() {
        assert(es.take(i) =~= es);
        assert(es.skip(i) =~= Seq::<(ValueView, ValueView)>::empty());
        assert(wire_pairs(es) =~= wire_pairs(es) + Seq::<u8>::empty());
    } else {
        let init = es.drop_last();
        lemma_wire_pairs_split(init, i);
        assert(init.take(i) =~= es.take(i));
        assert(es.skip(i).drop_last() =~= init.skip(i));
        assert(es.skip(i).last() == es.last());
        assert(wire_pairs(es) =~= wire_pairs(es.take(i)) + wire_pairs(es.skip(i)));
    }
}

/// Whether a value that is not null is read back from the wire.
#[verifier::opaque]
spec fn reads_back(v: ValueView, t: ColumnType) -> bool {
    &&& v !is Null
    &&& raw(v).len() <= i32::MAX
    &&& decode(wire(v), t) == Ok::<ValueView, DecodeErrorView>(v)
}

/// An item in the middle of a payload is found where it starts and read back.
proof fn lemma_item_back(p: Seq<u8>, before: Seq<u8>, v: ValueView, after: Seq<u8>, t: ColumnType)
    requires
        p == before + wire(v) + after,
        reads_back(v, t),
    ensures
        item_end(p, before.len() as int) == Some((before.len() + wire(v).len()) as int),
        decode(p.subrange(before.len() as int, (before.len() + wire(v).len()) as int), t) == Ok::<
            ValueView,
            DecodeErrorView,
        >(v),
{
    reveal(reads_back);
    let at = before.len() as int;
    lemma_len_back(raw(v).len());
    assert(p.subrange(at, at + 4) =~= be_len(raw(v).len()));
    assert(p.subrange(at, (at + wire(v).len()) as int) =~= wire(v));
}

proof fn lemma_items_step(
    p: Seq<u8>,
    at: int,
    end: int,
    v: ValueView,
    rest: Seq<ValueView>,
    count: nat,
    e: ColumnType,
    truncated: Seq<char>,
)
    requires
        count > 0,
        item_end(p, at) == Some(end),
        decode(p.subrange(at, end), e) == Ok::<ValueView, DecodeErrorView>(v),
        decode_items(p, end, (count - 1) as nat, e, truncated) == Ok::<
            Seq<ValueView>,
            DecodeErrorView,
        >(rest),
    ensures
        decode_items(p, at, count, e, truncated) == Ok::<Seq<ValueView>, DecodeErrorView>(
            seq![v] + rest,
        ),
{
}

proof fn lemma_entries_step(
    p: Seq<u8>,
    at: int,
    mid: int,
    end: int,
    entry: (ValueView, ValueView),
    rest: Seq<(ValueView, ValueView)>,
    count: nat,
    k: ColumnType,
    x: ColumnType,
)
    requires
        count > 0,
        item_end(p, at) == Some(mid),
        decode(p.subrange(at, mid), k) == Ok::<ValueView, DecodeErrorView>(entry.0),
        item_end(p, mid) == Some(end),
        decode(p.subrange(mid, end), x) == Ok::<ValueView, DecodeErrorView>(entry.1),
        decode_entries(p, end, (count - 1) as nat, k, x) == Ok::<
            Seq<(ValueView, ValueView)>,
            DecodeErrorView,
        >(rest),
    ensures
        decode_entries(p, at, count, k, x) == Ok::<Seq<(ValueView, ValueView)>, DecodeErrorView>(
            seq![entry] + rest,
        ),
{
    assert(decode_entry(p, at, k, x) == Ok::<((ValueView, ValueView), int), DecodeErrorView>(
        (entry, end),
    ));
}

/// The elements from the `i`-th on are read back.
proof fn lemma_items_back(
    p: Seq<u8>,
    vs: Seq<ValueView>,
    i: int,
    e: ColumnType,
    truncated: Seq<char>,
)
    requires
        0 <= i <= vs.len(),
        p == be_len(vs.len()) + wire_all(vs),
        forall|j: int| 0 <= j < vs.len() ==> #[trigger] reads_back(vs[j], e),
    ensures
        decode_items(
            p,
            (4 + wire_all(vs.take(i)).len()) as int,
            (vs.len() - i) as nat,
            e,
            truncated,
        ) == Ok::<Seq<ValueView>, DecodeErrorView>(vs.skip(i)),
    decreases vs.len() - i,
{
    let before = be_len(vs.len()) + wire_all(vs.take(i));
    lemma_i32_back(vs.len() as i32);
    if i == vs.len() {
        assert(vs.skip(i) =~= Seq::<ValueView>::empty());
    } else {
        lemma_items_back(p, vs, i + 1, e, truncated);
        lemma_wire_all_split(vs, i + 1);
        assert(vs.take(i + 1).drop_last() =~= vs.take(i));
        assert(wire_all(vs.take(i + 1)) == wire_all(vs.take(i)) + wire(vs[i]));
        assert(p =~= before + wire(vs[i]) + wire_all(vs.skip(i + 1)));
        assert(reads_back(vs[i], e));
        lemma_item_back(p, before, vs[i], wire_all(vs.skip(i + 1)), e);
        lemma_items_step(
            p,
            before.len() as int,
            (before.len() + wire(vs[i]).len()) as int,
            vs[i],
            vs.skip(i + 1),
            (vs.len() - i) as nat,
            e,
            truncated,
        );
        assert(seq![vs[i]] + vs.skip(i + 1) =~= vs.skip(i));
    }
}

/// Where the `i`-th entry stands among the others.
proof fn lemma_entry_place(head: Seq<u8>, es: Seq<(ValueView, ValueView)>, i: int)
    requires
        0 <= i < es.len(),
    ensures
        ({
            let before = head + wire_pairs(es.take(i));
            let key = wire(es[i].0);
            let val = wire(es[i].1);
            let after = wire_pairs(es.skip(i + 1));
            &&& head + wire_pairs(es) == before + key + (val + after)
            &&& head + wire_pairs(es) == (before + key) + val + after
            &&& wire_pairs(es.take(i + 1)) == wire_pairs(es.take(i)) + (key + val)
        }),
{
    lemma_wire_pairs_split(es, i + 1);
    assert(es.take(i + 1).drop_last() =~= es.take(i));
    let before = head + wire_pairs(es.take(i));
    let key = wire(es[i].0);
    let val = wire(es[i].1);
    let after = wire_pairs(es.skip(i + 1));
    assert(head + wire_pairs(es) =~= before + key + (val + after));
    assert(head + wire_pairs(es) =~= (before + key) + val + after);
}

/// The entries from the `i`-th on are read back.
#[verifier::spinoff_prover]
proof fn lemma_entries_back(
    p: Seq<u8>,
    es: Seq<(ValueView, ValueView)>,
    i: int,
    k: ColumnType,
    x: ColumnType,
)
    requires
        0 <= i <= es.len(),
        p == be_len(es.len()) + wire_pairs(es),
        forall|j: int| 0 <= j < es.len() ==> #[trigger] reads_back(es[j].0, k),
        forall|j: int| 0 <= j < es.len() ==> #[trigger] reads_back(es[j].1, x),
    ensures
        decode_entries(
            p,
            (4 + wire_pairs(es.take(i)).len()) as int,
            (es.len() - i) as nat,
            k,
            x,
        ) == Ok::<Seq<(ValueView, ValueView)>, DecodeErrorView>(es.skip(i)),
    decreases es.len() - i,
{
    lemma_i32_back(es.len() as i32);
    if i == es.len() {
        assert(es.skip(i) =~= Seq::<(ValueView, ValueView)>::empty());
    } else {
        lemma_entries_back(p, es, i + 1, k, x);
        lemma_entry_place(be_len(es.len()), es, i);
        let before = be_len(es.len()) + wire_pairs(es.take(i));
        let key = wire(es[i].0);
        let val = wire(es[i].1);
        let after = wire_pairs(es.skip(i + 1));
        assert(reads_back(es[i].0, k));
        assert(reads_back(es[i].1, x));
        lemma_item_back(p, before, es[i].0, val + after, k);
        lemma_item_back(p, before + key, es[i].1, after, x);
        lemma_entries_step(
            p,
            before.len() as int,
            (before.len() + key.len()) as int,
            (before.len() + key.len() + val.len()) as int,
            es[i],
            es.skip(i + 1),
            (es.len() - i) as nat,
            k,
            x,
        );
        assert(seq![es[i]] + es.skip(i + 1) =~= es.skip(i));
    }
}

/// A payload that is read back is read back behind its length prefix.
proof fn lemma_wire_back(v: ValueView, t: ColumnType)
    requires
        v !is Null,
        raw(v).len() <= i32::MAX,
        decode_payload(raw(v), t) == Ok::<ValueView, DecodeErrorView>(v),
    ensures
        decode(wire(v), t) == Ok::<ValueView, DecodeErrorView>(v),
{
    lemma_len_back(raw(v).len());
    assert(wire(v).take(4) =~= be_len(raw(v).len()));
    assert(wire(v).skip(4) =~= raw(v));
}

proof fn lemma_scalar_back(v: ValueView, t: ColumnType)
    requires
        typed(v, t),
        v !is SetOf && v !is List && v !is MapOf,
    ensures
        decode_payload(raw(v), t) == Ok::<ValueView, DecodeErrorView>(v),
{
    match v {
        ValueView::Int(x) => lemma_i32_back(x),
        ValueView::BigInt(x) => lemma_i64_back(x),
        ValueView::SmallInt(x) => lemma_i16_back(x),
        ValueView::TinyInt(x) => assert((x as u8) as i8 == x) by (bit_vector),
        ValueView::Float(x) => lemma_be32_back(x),
        ValueView::Double(x) => lemma_be64_back(x),
        ValueView::Text(x) => {
            encode_utf8_valid_utf8(x);
            encode_utf8_decode_utf8(x);
        },
        ValueView::Timestamp(x) => lemma_i64_back(x),
        _ => {},
    }
}

/// The items of a whole payload are read back.
proof fn lemma_all_items_back(vs: Seq<ValueView>, e: ColumnType, truncated: Seq<char>)
    requires
        (be_len(vs.len()) + wire_all(vs)).len() <= i32::MAX,
        forall|j: int| 0 <= j < vs.len() ==> #[trigger] reads_back(vs[j], e),
    ensures
        ({
            let p = be_len(vs.len()) + wire_all(vs);
            &&& p.len() >= 4
            &&& i32_of(p.take(4)) == vs.len()
            &&& decode_items(p, 4, vs.len(), e, truncated) == Ok::<
                Seq<ValueView>,
                DecodeErrorView,
            >(vs)
        }),
{
    let p = be_len(vs.len()) + wire_all(vs);
    lemma_count_back(p, vs.len(), wire_all(vs));
    lemma_wire_all_long(vs);
    lemma_items_back(p, vs, 0, e, truncated);
    assert(vs.take(0) =~= Seq::<ValueView>::empty());
    assert(vs.skip(0) =~= vs);
}

/// The entries of a whole payload are read back.
proof fn lemma_all_entries_back(es: Seq<(ValueView, ValueView)>, k: ColumnType, x: ColumnType)
    requires
        (be_len(es.len()) + wire_pairs(es)).len() <= i32::MAX,
        forall|j: int| 0 <= j < es.len() ==> #[trigger] reads_back(es[j].0, k),
        forall|j: int| 0 <= j < es.len() ==> #[trigger] reads_back(es[j].1, x),
    ensures
        ({
            let p = be_len(es.len()) + wire_pairs(es);
            &&& p.len() >= 4
            &&& i32_of(p.take(4)) == es.len()
            &&& decode_entries(p, 4, es.len(), k, x) == Ok::<
                Seq<(ValueView, ValueView)>,
                DecodeErrorView,
            >(es)
        }),
{
    let p = be_len(es.len()) + wire_pairs(es);
    lemma_count_back(p, es.len(), wire_pairs(es));
    lemma_wire_pairs_long(es);
    lemma_entries_back(p, es, 0, k, x);
    assert(es.take(0) =~= Seq::<(ValueView, ValueView)>::empty());
    assert(es.skip(0) =~= es);
}

proof fn lemma_payload_back(v: ValueView, t: ColumnType)
    requires
        typed(v, t),
    ensures
        reads_back(v, t),
    decreases type_depth(t),
{
    match v {
        ValueView::SetOf(vs) => {
            let e = *(t->SetOf_0);
            assert forall|j: int| 0 <= j < vs.len() implies #[trigger] reads_back(vs[j], e) by {
                lemma_payload_back(vs[j], e);
            }
            lemma_all_items_back(vs, e, "set value truncated"@);
        },
        ValueView::List(vs) => {
            let e = *(t->List_0);
            assert forall|j: int| 0 <= j < vs.len() implies #[trigger] reads_back(vs[j], e) by {
                lemma_payload_back(vs[j], e);
            }
            lemma_all_items_back(vs, e, "list value truncated"@);
        },
        ValueView::MapOf(es) => {
            let k = *(t->MapOf_0);
            let x = *(t->MapOf_1);
            assert forall|j: int| 0 <= j < es.len() implies #[trigger] reads_back(es[j].0, k) by {
                lemma_payload_back(es[j].0, k);
            }
            assert forall|j: int| 0 <= j < es.len() implies #[trigger] reads_back(es[j].1, x) by {
                lemma_payload_back(es[j].1, x);
            }
            lemma_all_entries_back(es, k, x);
        },
        _ => lemma_scalar_back(v, t),
    }
    assert(v !is Null);
    assert(decode_payload(raw(v), t) == Ok::<ValueView, DecodeErrorView>(v));
    lemma_wire_back(v, t);
    reveal(reads_back);
}

/// Each element takes up bytes, so the count is no larger than the payload.
proof fn lemma_wire_all_long(vs: Seq<ValueView>)
    ensures
        wire_all(vs).len() >= vs.len(),
    decreases vs.len(),
{
    if vs.len() > 0 {
        lemma_wire_all_long(vs.drop_last());
        lemma_wire_long(vs.last());
    }
}

proof fn lemma_wire_pairs_long(es: Seq<(ValueView, ValueView)>)
    ensures
        wire_pairs(es).len() >= es.len(),
    decreases es.len(),
{
    if es.len() > 0 {
        lemma_wire_pairs_long(es.drop_last());
        lemma_wire_long(es.last().0);
    }
}

/// A value on the wire starts with four bytes of length.
pub proof fn lemma_wire_long(v: ValueView)
    ensures
        wire(v).len() >= 4,
        v !is Null ==> wire(v).len() == 4 + raw(v).len(),
{
    lemma_i32_back((-1) as i32);
    lemma_i32_back(raw(v).len() as i32);
}

proof fn lemma_count_back(p: Seq<u8>, count: nat, rest: Seq<u8>)
    requires
        p == be_len(count) + rest,
    ensures
        be_len(count).len() == 4,
        count <= i32::MAX ==> i32_of(p.take(4)) == count,
{
    lemma_i32_back(count as i32);
    assert(p.take(4) =~= be_len(count));
}

/// What was written is read back: a value of the column's type, or null,
/// survives the wire.
pub proof fn law_wire_round_trip(v: ValueView, t: ColumnType)
    requires
        v is Null || typed(v, t),
    ensures
        decode(wire(v), t) == Ok::<ValueView, DecodeErrorView>(v),
{
    if v is Null {
        lemma_i32_back((-1) as i32);
        assert(wire(v).take(4) =~= wire(v));
    } else {
        lemma_payload_back(v, t);
        reveal(reads_back);
    }
}

/// A value of the column's type is read back from its bytes.
pub proof fn law_raw_bytes_round_trip(v: ValueView, t: ColumnType)
    requires
        typed(v, t),
    ensures
        decode(be_len(raw(v).len()) + raw(v), t) == Ok::<ValueView, DecodeErrorView>(v),
{
    lemma_payload_back(v, t);
    reveal(reads_back);
}

proof fn lemma_item_typed(p: Seq<u8>, at: int, end: int, e: ColumnType)
    requires
        0 <= at,
        p.len() <= i32::MAX,
        item_end(p, at) == Some(end),
        decode(p.subrange(at, end), e) is Ok,
    ensures
        at + 4 <= end <= p.len(),
        typed(decode(p.subrange(at, end), e)->Ok_0, e),
        wire(decode(p.subrange(at, end), e)->Ok_0).len() <= end - at,
    decreases type_depth(e), 1nat, 1nat,
{
    let data = p.subrange(at, end);
    assert(data.take(4) =~= p.subrange(at, at + 4));
    lemma_payload_typed(data.skip(4), e);
    lemma_wire_long(decode(data, e)->Ok_0);
}

proof fn lemma_items_typed(
    p: Seq<u8>,
    at: int,
    count: nat,
    e: ColumnType,
    truncated: Seq<char>,
)
    requires
        0 <= at <= p.len() <= i32::MAX,
        decode_items(p, at, count, e, truncated) is Ok,
    ensures
        ({
            let vs = decode_items(p, at, count, e, truncated)->Ok_0;
            &&& forall|i: int| 0 <= i < vs.len() ==> typed(#[trigger] vs[i], e)
            &&& wire_all(vs).len() <= p.len() - at
        }),
    decreases type_depth(e), 2nat, count,
{
    if count > 0 {
        let end = item_end(p, at)->Some_0;
        let v = decode(p.subrange(at, end), e)->Ok_0;
        lemma_item_typed(p, at, end, e);
        lemma_items_typed(p, end, (count - 1) as nat, e, truncated);
        let rest = decode_items(p, end, (count - 1) as nat, e, truncated)->Ok_0;
        let vs = seq![v] + rest;
        lemma_wire_all_split(vs, 1);
        assert(vs.take(1) =~= seq![v]);
        assert(vs.skip(1) =~= rest);
        assert(seq![v].drop_last() =~= Seq::<ValueView>::empty());
        assert(wire_all(Seq::<ValueView>::empty()) =~= Seq::<u8>::empty());
        assert(wire_all(seq![v]) == wire_all(seq![v].drop_last()) + wire(v));
        assert forall|i: int| 0 <= i < vs.len() implies typed(#[trigger] vs[i], e) by {
            if i > 0 {
                assert(vs[i] == rest[i - 1]);
            }
        }
    }
}

proof fn lemma_entries_typed(p: Seq<u8>, at: int, count: nat, k: ColumnType, x: ColumnType)
    requires
        0 <= at <= p.len() <= i32::MAX,
        decode_entries(p, at, count, k, x) is Ok,
    ensures
        ({
            let es = decode_entries(p, at, count, k, x)->Ok_0;
            &&& forall|i: int|
                0 <= i < es.len() ==> typed((#[trigger] es[i]).0, k) && typed(es[i].1, x)
            &&& wire_pairs(es).len() <= p.len() - at
        }),
    decreases deeper(type_depth(k), type_depth(x)), 2nat, count,
{
    if count > 0 {
        let here = decode_entry(p, at, k, x);
        let mid = item_end(p, at)->Some_0;
        let key = decode(p.subrange(at, mid), k)->Ok_0;
        let end = item_end(p, mid)->Some_0;
        let val = decode(p.subrange(mid, end), x)->Ok_0;
        assert(here == Ok::<((ValueView, ValueView), int), DecodeErrorView>(((key, val), end)));
        lemma_item_typed(p, at, mid, k);
        lemma_item_typed(p, mid, end, x);
        lemma_entries_typed(p, end, (count - 1) as nat, k, x);
        let rest = decode_entries(p, end, (count - 1) as nat, k, x)->Ok_0;
        let entry = (key, val);
        let es = seq![entry] + rest;
        lemma_wire_pairs_split(es, 1);
        assert(es.take(1) =~= seq![entry]);
        assert(es.skip(1) =~= rest);
        assert(seq![entry].drop_last() =~= Seq::<(ValueView, ValueView)>::empty());
        assert(wire_pairs(Seq::<(ValueView, ValueView)>::empty()) =~= Seq::<u8>::empty());
        assert(wire_pairs(seq![entry]).len() == wire_pairs(seq![entry].drop_last()).len() + wire(
            key,
        ).len() + wire(val).len());
        assert forall|i: int| 0 <= i < es.len() implies typed((#[trigger] es[i]).0, k) && typed(
            es[i].1,
            x,
        ) by {
            if i > 0 {
                assert(es[i] == rest[i - 1]);
            }
        }
    }
}

/// A payload denotes a value of the type, and one that is not longer.
proof fn lemma_payload_typed(p: Seq<u8>, t: ColumnType)
    requires
        p.len() <= i32::MAX,
        decode_payload(p, t) is Ok,
    ensures
        decode_payload(p, t)->Ok_0 !is Null,
        raw(decode_payload(p, t)->Ok_0).len() <= p.len(),
        typed(decode_payload(p, t)->Ok_0, t),
    decreases type_depth(t), 1nat, 0nat,
{
    let v = decode_payload(p, t)->Ok_0;
    match t {
        ColumnType::Int => lemma_be32_back(i32_of(p) as u32),
        ColumnType::BigInt => lemma_be64_back(i64_of(p) as u64),
        ColumnType::SmallInt => lemma_be16_back(i16_of(p) as u16),
        ColumnType::Float => lemma_be32_back(un_be(p) as u32),
        ColumnType::Double => lemma_be64_back(un_be(p) as u64),
        ColumnType::Timestamp => lemma_be64_back(i64_of(p) as u64),
        ColumnType::Text => decode_utf8_encode_utf8(p),
        ColumnType::SetOf(e) => {
            let count = i32_of(p.take(4)) as nat;
            lemma_items_typed(p, 4, count, *e, "set value truncated"@);
            lemma_i32_back(v->SetOf_0.len() as i32);
        },
        ColumnType::List(e) => {
            let count = i32_of(p.take(4)) as nat;
            lemma_items_typed(p, 4, count, *e, "list value truncated"@);
            lemma_i32_back(v->List_0.len() as i32);
        },
        ColumnType::MapOf(k, x) => {
            let count = i32_of(p.take(4)) as nat;
            lemma_entries_typed(p, 4, count, *k, *x);
            lemma_i32_back(v->MapOf_0.len() as i32);
        },
        _ => {},
    }
}

/// What is read is null or a value of the column's type.
pub proof fn law_decoded_is_typed(data: Seq<u8>, t: ColumnType)
    requires
        decode(data, t) is Ok,
    ensures
        decode(data, t)->Ok_0 is Null || typed(decode(data, t)->Ok_0, t),
{
    if i32_of(data.take(4)) >= 0 {
        lemma_payload_typed(data.skip(4), t);
    }
}

/// The elements of a collection are not longer than the collection.
pub proof fn lemma_element_bound(vs: Seq<ValueView>, i: int)
    requires
        0 <= i < vs.len(),
    ensures
        raw(vs[i]).len() <= wire_all(vs).len(),
{
    lemma_wire_all_split(vs, i + 1);
    assert(vs.take(i + 1).last() == vs[i]);
    lemma_wire_long(vs[i]);
    assert(vs[i] is Null ==> raw(vs[i]).len() == 0);
}

/// The keys and values of a map are not longer than the map.
pub proof fn lemma_entry_bound(es: Seq<(ValueView, ValueView)>, i: int)
    requires
        0 <= i < es.len(),
    ensures
        raw(es[i].0).len() <= wire_pairs(es).len(),
        raw(es[i].1).len() <= wire_pairs(es).len(),
{
    lemma_wire_pairs_split(es, i + 1);
    assert(es.take(i + 1).last() == es[i]);
    lemma_wire_long(es[i].0);
    lemma_wire_long(es[i].1);
    assert(es[i].0 is Null ==> raw(es[i].0).len() == 0);
    assert(es[i].1 is Null ==> raw(es[i].1).len() == 0);
}

/// The magnitude of a single-precision number: its bits without the sign.
pub open spec fn magnitude32(x: u32) -> u32 {
    x % 0x8000_0000
}

/// The magnitude of a double-precision number: its bits without the sign.
pub open spec fn magnitude64(x: u64) -> u64 {
    x % 0x8000_0000_0000_0000
}

/// Whether two single-precision numbers compare equal: not-a-number equals
/// nothing, and the two zeros are equal.
pub open spec fn float_equal(x: u32, y: u32) -> bool {
    &&& magnitude32(x) <= 0x7f80_0000
    &&& magnitude32(y) <= 0x7f80_0000
    &&& x == y || (magnitude32(x) == 0 && magnitude32(y) == 0)
}

/// Whether two double-precision numbers compare equal.
pub open spec fn double_equal(x: u64, y: u64) -> bool {
    &&& magnitude64(x) <= 0x7ff0_0000_0000_0000
    &&& magnitude64(y) <= 0x7ff0_0000_0000_0000
    &&& x == y || (magnitude64(x) == 0 && magnitude64(y) == 0)
}

/// Whether two values compare equal: the same variant, with contents that
/// compare equal.
pub open spec fn equal(a: ValueView, b: ValueView) -> bool
    decreases a,
{
    match (a, b) {
        (ValueView::Float(x), ValueView::Float(y)) => float_equal(x, y),
        (ValueView::Double(x), ValueView::Double(y)) => double_equal(x, y),
        (ValueView::SetOf(x), ValueView::SetOf(y)) => x.len() == y.len() && forall|i: int|
            0 <= i < x.len() ==> equal(#[trigger] x[i], y[i]),
        (ValueView::List(x), ValueView::List(y)) => x.len() == y.len() && forall|i: int|
            0 <= i < x.len() ==> equal(#[trigger] x[i], y[i]),
        (ValueView::MapOf(x), ValueView::MapOf(y)) => x.len() == y.len() && forall|i: int|
            0 <= i < x.len() ==> equal((#[trigger] x[i]).0, y[i].0) && equal(x[i].1, y[i].1),
        _ => a == b,
    }
}

fn same_float(x: u32, y: u32) -> (r: bool)
    ensures
        r == float_equal(x, y),
{
    let a: u32 = x % 0x8000_0000;
    let b: u32 = y % 0x8000_0000;
    a <= 0x7f80_0000 && b <= 0x7f80_0000 && (x == y || (a == 0 && b == 0))
}

fn same_double(x: u64, y: u64) -> (r: bool)
    ensures
        r == double_equal(x, y),
{
    let a: u64 = x % 0x8000_0000_0000_0000;
    let b: u64 = y % 0x8000_0000_0000_0000;
    a <= 0x7ff0_0000_0000_0000 && b <= 0x7ff0_0000_0000_0000 && (x == y || (a == 0 && b == 0))
}

fn same_values(x: &Vec<Value>, y: &Vec<Value>) -> (r: bool)
    ensures
        r == equal(ValueView::List(value_views(x@)), ValueView::List(value_views(y@))),
    decreases x, 1int,
{
    proof {
        lemma_value_views(x@);
        lemma_value_views(y@);
    }
    if x.len() != y.len() {
        return false;
    }
    let mut i: usize = 0;
    while i < x.len()
        invariant
            i <= x@.len(),
            x@.len() == y@.len(),
            value_views(x@).len() == x@.len(),
            value_views(y@).len() == y@.len(),
            forall|j: int| 0 <= j < x@.len() ==> #[trigger] value_views(x@)[j] == x@[j]@,
            forall|j: int| 0 <= j < y@.len() ==> #[trigger] value_views(y@)[j] == y@[j]@,
            forall|j: int|
                0 <= j < i ==> equal(#[trigger] value_views(x@)[j], value_views(y@)[j]),
        decreases x@.len() - i,
    {
        if !x[i].same(&y[i]) {
            assert(!equal(value_views(x@)[i as int], value_views(y@)[i as int]));
            return false;
        }
        i += 1;
    }
    true
}

fn same_pairs(x: &Vec<(Value, Value)>, y: &Vec<(Value, Value)>) -> (r: bool)
    ensures
        r == equal(ValueView::MapOf(pair_views(x@)), ValueView::MapOf(pair_views(y@))),
    decreases x, 1int,
{
    proof {
        lemma_pair_views(x@);
        lemma_pair_views(y@);
    }
    if x.len() != y.len() {
        return false;
    }
    let mut i: usize = 0;
    while i < x.len()
        invariant
            i <= x@.len(),
            x@.len() == y@.len(),
            pair_views(x@).len() == x@.len(),
            pair_views(y@).len() == y@.len(),
            forall|j: int|
                0 <= j < x@.len() ==> #[trigger] pair_views(x@)[j] == (x@[j].0@, x@[j].1@),
            forall|j: int|
                0 <= j < y@.len() ==> #[trigger] pair_views(y@)[j] == (y@[j].0@, y@[j].1@),
            forall|j: int|
                0 <= j < i ==> equal((#[trigger] pair_views(x@)[j]).0, pair_views(y@)[j].0)
                    && equal(pair_views(x@)[j].1, pair_views(y@)[j].1),
        decreases x@.len() - i,
    {
        if !x[i].0.same(&y[i].0) || !x[i].1.same(&y[i].1) {
            assert(!(equal(pair_views(x@)[i as int].0, pair_views(y@)[i as int].0) && equal(
                pair_views(x@)[i as int].1,
                pair_views(y@)[i as int].1,
            )));
            return false;
        }
        i += 1;
    }
    true
}

fn copy_values(vs: &Vec<Value>) -> (r: Vec<Value>)
    ensures
        value_views(r@) == value_views(vs@),
    decreases vs, 1int,
{
    let mut r: Vec<Value> = Vec::new();
    let mut i: usize = 0;
    assert(vs@.take(0) =~= Seq::<Value>::empty());
    while i < vs.len()
        invariant
            i <= vs@.len(),
            value_views(r@) == value_views(vs@.take(i as int)),
        decreases vs@.len() - i,
    {
        let v: Value = vs[i].clone();
        proof {
            lemma_value_views_push(r@, v);
            lemma_value_views_push(vs@.take(i as int), vs@[i as int]);
            assert(vs@.take(i + 1) =~= vs@.take(i as int).push(vs@[i as int]));
        }
        r.push(v);
        i += 1;
    }
    assert(vs@.take(i as int) =~= vs@);
    r
}

fn copy_pairs(es: &Vec<(Value, Value)>) -> (r: Vec<(Value, Value)>)
    ensures
        pair_views(r@) == pair_views(es@),
    decreases es, 1int,
{
    let mut r: Vec<(Value, Value)> = Vec::new();
    let mut i: usize = 0;
    assert(es@.take(0) =~= Seq::<(Value, Value)>::empty());
    while i < es.len()
        invariant
            i <= es@.len(),
            pair_views(r@) == pair_views(es@.take(i as int)),
        decreases es@.len() - i,
    {
        let e: (Value, Value) = (es[i].0.clone(), es[i].1.clone());
        proof {
            lemma_pair_views_push(r@, e);
            lemma_pair_views_push(es@.take(i as int), es@[i as int]);
            assert(es@.take(i + 1) =~= es@.take(i as int).push(es@[i as int]));
        }
        r.push(e);
        i += 1;
    }
    assert(es@.take(i as int) =~= es@);
    r
}

impl Clone for Value {
    fn clone(&self) -> (r: Self)
        ensures
            r@ == self@,
        decreases self, 0int,
    {
        match self {
            Value::Null => Value::Null,
            Value::Int(x) => Value::Int(*x),
            Value::BigInt(x) => Value::BigInt(*x),
            Value::SmallInt(x) => Value::SmallInt(*x),
            Value::TinyInt(x) => Value::TinyInt(*x),
            Value::Float(x) => Value::Float(*x),
            Value::Double(x) => Value::Double(*x),
            Value::Boolean(x) => Value::Boolean(*x),
            Value::Text(x) => Value::Text(x.clone()),
            Value::Blob(x) => Value::Blob(copy_bytes(x)),
            Value::Timestamp(x) => Value::Timestamp(*x),
            Value::Uuid(x) => Value::Uuid(*x),
            Value::Inet(x) => Value::Inet(*x),
            Value::SetOf(x) => Value::SetOf(copy_values(x)),
            Value::List(x) => Value::List(copy_values(x)),
            Value::MapOf(x) => Value::MapOf(copy_pairs(x)),
        }
    }
}

impl Value {
    pub fn is_null(&self) -> (r: bool)
        ensures
            r == (self@ is Null),
    {
        match self {
            Value::Null => true,
            _ => false,
        }
    }

    /// Whether two values compare equal.
    pub fn same(&self, other: &Value) -> (r: bool)
        ensures
            r == equal(self@, other@),
        decreases self, 0int,
    {
        match (self, other) {
            (Value::Null, Value::Null) => true,
            (Value::Int(x), Value::Int(y)) => *x == *y,
            (Value::BigInt(x), Value::BigInt(y)) => *x == *y,
            (Value::SmallInt(x), Value::SmallInt(y)) => *x == *y,
            (Value::TinyInt(x), Value::TinyInt(y)) => *x == *y,
            (Value::Float(x), Value::Float(y)) => same_float(*x, *y),
            (Value::Double(x), Value::Double(y)) => same_double(*x, *y),
            (Value::Boolean(x), Value::Boolean(y)) => *x == *y,
            (Value::Text(x), Value::Text(y)) => same_text(x, y),
            (Value::Blob(x), Value::Blob(y)) => same_bytes(x, y),
            (Value::Timestamp(x), Value::Timestamp(y)) => *x == *y,
            (Value::Uuid(x), Value::Uuid(y)) => same_bytes(x.as_slice(), y.as_slice()),
            (Value::Inet(x), Value::Inet(y)) => x.same(y),
            (Value::SetOf(x), Value::SetOf(y)) => same_values(x, y),
            (Value::List(x), Value::List(y)) => same_values(x, y),
            (Value::MapOf(x), Value::MapOf(y)) => same_pairs(x, y),
            _ => false,
        }
    }
}

impl Inet {
    fn same(&self, other: &Inet) -> (r: bool)
        ensures
            r == (self@ == other@),
    {
        match (self, other) {
            (Inet::V4(x), Inet::V4(y)) => same_bytes(x.as_slice(), y.as_slice()),
            (Inet::V6(x), Inet::V6(y)) => same_bytes(x.as_slice(), y.as_slice()),
            (Inet::V4(x), Inet::V6(y)) => {
                assert(x@.len() == 4 && y@.len() == 16);
                false
            },
            (Inet::V6(x), Inet::V4(y)) => {
                assert(x@.len() == 16 && y@.len() == 4);
                false
            },
        }
    }
}

impl PartialEq for Value {
    fn eq(&self, other: &Self) -> (r: bool) {
        self.same(other)
    }
}

impl vstd::std_specs::cmp::PartialEqSpecImpl for Value {
    open spec fn obeys_eq_spec() -> bool {
        true
    }

    open spec fn eq_spec(&self, other: &Self) -> bool {
        equal(self@, other@)
    }
}

pub open spec fn is_hex(b: u8) -> bool {
    ||| 0x30 <= b <= 0x39
    ||| 0x41 <= b <= 0x46
    ||| 0x61 <= b <= 0x66
}

pub open spec fn hex_value(b: u8) -> int {
    if b <= 0x39 {
        b - 0x30
    } else if b <= 0x46 {
        b - 0x41 + 10
    } else {
        b - 0x61 + 10
    }
}

/// Whether `s` is made of pairs of hexadecimal digits.
pub open spec fn is_hex_text(s: Seq<u8>) -> bool {
    s.len() % 2 == 0 && forall|i: int| 0 <= i < s.len() ==> is_hex(#[trigger] s[i])
}

/// The bytes that pairs of hexadecimal digits spell.
pub open spec fn hex_bytes(s: Seq<u8>) -> Seq<u8> {
    Seq::new(
        (s.len() / 2) as nat,
        |i: int| (16 * hex_value(s[2 * i]) + hex_value(s[2 * i + 1])) as u8,
    )
}

/// `hex::decode`: succeeds exactly on pairs of hexadecimal digits of either
/// case and gives the bytes that they spell.
#[verifier::external_body]
fn hex_decode(s: &str) -> (r: Option<Vec<u8>>)
    ensures
        r is Some <==> is_hex_text(encode_utf8(s@)),
        r matches Some(v) ==> v@ == hex_bytes(encode_utf8(s@)),
{
    hex::decode(s).ok()
}

/// `hex::decode_to_slice` into sixteen bytes: succeeds exactly on sixteen
/// pairs of hexadecimal digits and gives the bytes that they spell.
#[verifier::external_body]
fn hex_decode_16(s: &str) -> (r: Option<[u8; 16]>)
    ensures
        r is Some == (is_hex_text(encode_utf8(s@)) && encode_utf8(s@).len() == 32),
        r matches Some(a) ==> a@ == hex_bytes(encode_utf8(s@)),
{
    let mut out = [0u8; 16];
    hex::decode_to_slice(s, &mut out).ok().map(|_| out)
}

/// What a literal denotes as a number with a fraction or as an IP address,
/// where it denotes one. `text` is the literal without white space around it;
/// `float` and `double` are the bits of the number.
#[derive(Debug)]
pub struct LiteralReading {
    pub text: String,
    pub float: Option<u32>,
    pub double: Option<u64>,
    pub inet: Option<Inet>,
}

pub open spec fn reading_texts(readings: Seq<LiteralReading>) -> Seq<Seq<char>> {
    readings.map_values(|l: LiteralReading| l.text@)
}

/// The reading of a literal: that of the first entry with its text.
pub open spec fn reading_of(readings: Seq<LiteralReading>, text: Seq<char>) -> Option<
    LiteralReading,
> {
    match index_in(reading_texts(readings), text) {
        Some(i) => Some(readings[i]),
        None => None,
    }
}

fn find_reading<'a>(readings: &'a [LiteralReading], text: &str) -> (r: Option<&'a LiteralReading>)
    ensures
        match reading_of(readings@, text@) {
            Some(l) => r == Some(&l),
            None => r is None,
        },
{
    let ghost names = reading_texts(readings@);
    proof {
        lemma_index_in(names, text@);
    }
    let mut i: usize = 0;
    while i < readings.len()
        invariant
            i <= readings@.len(),
            names == reading_texts(readings@),
            forall|j: int| 0 <= j < i ==> #[trigger] names[j] != text@,
        decreases readings@.len() - i,
    {
        if same_text(&readings[i].text, text) {
            proof {
                lemma_index_is(names, text@, i as int);
            }
            return Some(&readings[i]);
        }
        i += 1;
    }
    None
}

/// The text that a text literal denotes: within single quotes, with doubled
/// quotes made single, or as it stands.
pub open spec fn unescaped(text: Seq<char>) -> Seq<char> {
    let t = trimmed(text);
    if t.len() >= 2 && t.first() == '\'' && t.last() == '\'' {
        single_quotes(t.subrange(1, t.len() - 1))
    } else {
        t
    }
}

/// A text with each single quote doubled.
pub open spec fn doubled_quotes(s: Seq<char>) -> Seq<char>
    decreases s.len(),
{
    if s.len() == 0 {
        Seq::empty()
    } else if s[0] == '\'' {
        seq!['\'', '\''] + doubled_quotes(s.drop_first())
    } else {
        seq![s[0]] + doubled_quotes(s.drop_first())
    }
}

/// The text literal that denotes a text: within single quotes, with each of its
/// own doubled.
pub open spec fn quoted_literal(s: Seq<char>) -> Seq<char> {
    seq!['\''] + doubled_quotes(s) + seq!['\'']
}

proof fn lemma_doubled_quotes_back(s: Seq<char>)
    ensures
        single_quotes(doubled_quotes(s)) == s,
    decreases s.len(),
{
    if s.len() > 0 {
        let rest = s.drop_first();
        lemma_doubled_quotes_back(rest);
        let d = doubled_quotes(s);
        if s[0] == '\'' {
            assert(d.subrange(2, d.len() as int) =~= doubled_quotes(rest));
        } else {
            assert(d.drop_first() =~= doubled_quotes(rest));
        }
        assert(s =~= seq![s[0]] + rest);
    }
}

/// Unescaping undoes quoting: the literal of a text denotes the text.
pub proof fn law_unescaping_undoes_quoting(s: Seq<char>)
    ensures
        unescaped(quoted_literal(s)) == s,
{
    let t = quoted_literal(s);
    lemma_doubled_quotes_back(s);
    assert(t.first() == '\'' && t.last() == '\'');
    assert(trimmed(t) == t);
    assert(t.subrange(1, t.len() - 1) =~= doubled_quotes(s));
}

/// The digits of a blob literal.
pub open spec fn hex_digits(t: Seq<char>) -> Seq<char> {
    if t.len() >= 2 && t[0] == '0' && (t[1] == 'x' || t[1] == 'X') {
        t.skip(2)
    } else {
        t
    }
}

/// The complaint that `text` is no literal of the type that `tail` ends with.
pub open spec fn cannot_parse(text: Seq<char>, tail: Seq<char>) -> Result<ValueView, Seq<char>> {
    Err("cannot parse '"@ + text + tail)
}

/// The value that a literal denotes for a column type.
pub open spec fn literal_value(
    text: Seq<char>,
    t: ColumnType,
    readings: Seq<LiteralReading>,
) -> Result<ValueView, Seq<char>> {
    let s = trimmed(text);
    match t {
        ColumnType::Int => match integer_in(s, true, i32::MIN as int, i32::MAX as int) {
            Some(v) => Ok(ValueView::Int(v as i32)),
            None => cannot_parse(text, "' as int"@),
        },
        ColumnType::BigInt => match integer_in(s, true, i64::MIN as int, i64::MAX as int) {
            Some(v) => Ok(ValueView::BigInt(v as i64)),
            None => cannot_parse(text, "' as bigint"@),
        },
        ColumnType::SmallInt => match integer_in(s, true, i16::MIN as int, i16::MAX as int) {
            Some(v) => Ok(ValueView::SmallInt(v as i16)),
            None => cannot_parse(text, "' as smallint"@),
        },
        ColumnType::TinyInt => match integer_in(s, true, i8::MIN as int, i8::MAX as int) {
            Some(v) => Ok(ValueView::TinyInt(v as i8)),
            None => cannot_parse(text, "' as tinyint"@),
        },
        ColumnType::Float => match reading_of(readings, s) {
            Some(LiteralReading { float: Some(bits), .. }) => Ok(ValueView::Float(bits)),
            _ => cannot_parse(text, "' as float"@),
        },
        ColumnType::Double => match reading_of(readings, s) {
            Some(LiteralReading { double: Some(bits), .. }) => Ok(ValueView::Double(bits)),
            _ => cannot_parse(text, "' as double"@),
        },
        ColumnType::Boolean => if upper_text(s) == "TRUE"@ {
            Ok(ValueView::Boolean(true))
        } else if upper_text(s) == "FALSE"@ {
            Ok(ValueView::Boolean(false))
        } else {
            cannot_parse(text, "' as boolean"@)
        },
        ColumnType::Text => Ok(ValueView::Text(unescaped(s))),
        ColumnType::Blob => if is_hex_text(encode_utf8(hex_digits(s))) {
            Ok(ValueView::Blob(hex_bytes(encode_utf8(hex_digits(s)))))
        } else {
            cannot_parse(text, "' as blob"@)
        },
        ColumnType::Timestamp => match integer_in(s, true, i64::MIN as int, i64::MAX as int) {
            Some(v) => Ok(ValueView::Timestamp(v as i64)),
            None => cannot_parse(text, "' as timestamp"@),
        },
        ColumnType::Uuid => {
            let digits = encode_utf8(without(unquoted(s), '-'));
            if digits.len() == 32 && is_hex_text(digits) {
                Ok(ValueView::Uuid(hex_bytes(digits)))
            } else {
                cannot_parse(text, "' as uuid"@)
            }
        },
        ColumnType::Inet => match reading_of(readings, s) {
            Some(LiteralReading { inet: Some(a), .. }) => Ok(ValueView::Inet(a@)),
            _ => cannot_parse(text, "' as inet"@),
        },
        ColumnType::SetOf(_) => Err("collection literals are not supported"@),
        ColumnType::List(_) => Err("collection literals are not supported"@),
        ColumnType::MapOf(_, _) => Err("collection literals are not supported"@),
    }
}

fn no_literal(text: &str, tail: &str) -> (r: Result<Value, String>)
    ensures
        r matches Err(e) && e@ == "cannot parse '"@ + text@ + tail@,
{
    Err(join3("cannot parse '", text, tail))
}

/// What a result of parsing is, mathematically.
pub open spec fn parsed(r: Result<Value, String>) -> Result<ValueView, Seq<char>> {
    match r {
        Ok(v) => Ok(v@),
        Err(e) => Err(e@),
    }
}

impl Value {
    /// The value that a literal denotes for a column type. `readings` tells
    /// what the literal is as a number with a fraction or as an IP address.
    pub fn parse_literal(text: &str, col_type: &ColumnType, readings: &[LiteralReading]) -> (r:
        Result<Value, String>)
        ensures
            parsed(r) == literal_value(text@, *col_type, readings@),
    {
        let s: String = trim(text);
        match col_type {
            ColumnType::Int => match parse_signed(&s, i32::MIN as i64, i32::MAX as i64) {
                Some(v) => Ok(Value::Int(v as i32)),
                None => no_literal(text, "' as int"),
            },
            ColumnType::BigInt => match parse_signed(&s, i64::MIN, i64::MAX) {
                Some(v) => Ok(Value::BigInt(v)),
                None => no_literal(text, "' as bigint"),
            },
            ColumnType::SmallInt => match parse_signed(&s, i16::MIN as i64, i16::MAX as i64) {
                Some(v) => Ok(Value::SmallInt(v as i16)),
                None => no_literal(text, "' as smallint"),
            },
            ColumnType::TinyInt => match parse_signed(&s, i8::MIN as i64, i8::MAX as i64) {
                Some(v) => Ok(Value::TinyInt(v as i8)),
                None => no_literal(text, "' as tinyint"),
            },
            ColumnType::Float => match find_reading(readings, &s) {
                Some(l) => match l.float {
                    Some(bits) => Ok(Value::Float(bits)),
                    None => no_literal(text, "' as float"),
                },
                None => no_literal(text, "' as float"),
            },
            ColumnType::Double => match find_reading(readings, &s) {
                Some(l) => match l.double {
                    Some(bits) => Ok(Value::Double(bits)),
                    None => no_literal(text, "' as double"),
                },
                None => no_literal(text, "' as double"),
            },
            ColumnType::Boolean => {
                let upper: String = uppercase(&s);
                if same_text(&upper, "TRUE") {
                    Ok(Value::Boolean(true))
                } else if same_text(&upper, "FALSE") {
                    Ok(Value::Boolean(false))
                } else {
                    no_literal(text, "' as boolean")
                }
            },
            ColumnType::Text => Ok(Value::Text(unescape_string(&s))),
            ColumnType::Blob => {
                let chars: Vec<char> = chars_of(&s);
                let from: usize = if chars.len() >= 2 && chars[0] == '0' && (chars[1] == 'x'
                    || chars[1] == 'X') {
                    2
                } else {
                    0
                };
                let digits: String = text_of(&chars, from, chars.len());
                assert(digits@ =~= hex_digits(s@));
                match hex_decode(&digits) {
                    Some(bytes) => Ok(Value::Blob(bytes)),
                    None => no_literal(text, "' as blob"),
                }
            },
            ColumnType::Timestamp => match parse_signed(&s, i64::MIN, i64::MAX) {
                Some(v) => Ok(Value::Timestamp(v)),
                None => no_literal(text, "' as timestamp"),
            },
            ColumnType::Uuid => {
                let digits: String = remove_char(&unquote(&s), '-');
                match hex_decode_16(&digits) {
                    Some(bytes) => Ok(Value::Uuid(bytes)),
                    None => no_literal(text, "' as uuid"),
                }
            },
            ColumnType::Inet => match find_reading(readings, &s) {
                Some(l) => match l.inet {
                    Some(a) => Ok(Value::Inet(a)),
                    None => no_literal(text, "' as inet"),
                },
                None => no_literal(text, "' as inet"),
            },
            ColumnType::SetOf(_) => Err("collection literals are not supported".to_owned()),
            ColumnType::List(_) => Err("collection literals are not supported".to_owned()),
            ColumnType::MapOf(_, _) => Err("collection literals are not supported".to_owned()),
        }
    }
}

/// The text that a text literal denotes.
pub fn unescape_string(text: &str) -> (r: String)
    ensures
        r@ == unescaped(text@),
{
    let t: String = trim(text);
    let chars: Vec<char> = chars_of(&t);
    let n: usize = chars.len();
    if n >= 2 && chars[0] == '\'' && chars[n - 1] == '\'' {
        merge_quotes(&chars, 1, n - 1)
    } else {
        t
    }
}

} // verus!
