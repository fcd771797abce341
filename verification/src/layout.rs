//! What bytes and type options mean to a client of the native protocol: numbers
//! with the most significant byte first, values behind their lengths, and the
//! protocol's own table of types.

use crate::bytes::{
    be, be16, be_len, i16_of, i32_of, i64_of, lemma_be_un_be, lemma_un_be_bound, pow256, un_be,
};
use crate::cql_value::{
    decode_payload, lemma_wire_long, raw, typed, wire, wire_all, wire_pairs, ValueView,
};
use crate::schema::{type_code, type_text, wire_type, ColumnType};
use vstd::arithmetic::div_mod::lemma_div_denominator;
use vstd::arithmetic::power::{lemma_pow0, lemma_pow1, lemma_pow_adds, lemma_pow_positive, pow};
use vstd::prelude::*;
use vstd::utf8::{decode_utf8, encode_utf8_decode_utf8, encode_utf8_valid_utf8, valid_utf8};

verus! {

/// The `i`-th of the `n` bytes of a number, counted from the most significant.
pub open spec fn byte_of(v: int, n: nat, i: int) -> int {
    (v / pow(256, (n - 1 - i) as nat)) % 256
}

/// Whether bytes spell a number in two's complement, the most significant byte
/// first.
pub open spec fn spells(b: Seq<u8>, n: nat, v: int) -> bool {
    let bits = if v < 0 {
        v + pow(256, n)
    } else {
        v
    };
    b.len() == n && forall|i: int| 0 <= i < n ==> #[trigger] b[i] == byte_of(bits, n, i)
}

/// A number is written with its most significant byte first.
pub proof fn law_numbers_are_big_endian(v: nat, n: nat)
    ensures
        be(v, n).len() == n,
        forall|i: int| 0 <= i < n ==> #[trigger] be(v, n)[i] == byte_of(v as int, n, i),
    decreases n,
{
    if n > 0 {
        let m = (n - 1) as nat;
        law_numbers_are_big_endian(v / 256, m);
        assert forall|i: int| 0 <= i < n implies #[trigger] be(v, n)[i] == byte_of(
            v as int,
            n,
            i,
        ) by {
            lemma_pow0(256);
            if i < m {
                let k = (m - 1 - i) as nat;
                assert(be(v, n)[i] == be(v / 256, m)[i]);
                lemma_pow_positive(256, k);
                lemma_pow1(256);
                lemma_pow_adds(256, 1, k);
                lemma_div_denominator(v as int, 256, pow(256, k));
                assert((n - 1 - i) as nat == 1 + k);
            } else {
                assert((v as int) / 1 == v);
            }
        }
    }
}

proof fn lemma_pow256_is_pow(n: nat)
    ensures
        pow256(n) == pow(256, n),
    decreases n,
{
    lemma_pow0(256);
    if n > 0 {
        lemma_pow256_is_pow((n - 1) as nat);
        lemma_pow1(256);
        lemma_pow_adds(256, 1, (n - 1) as nat);
    }
}

/// Bytes are read as the number that they spell.
pub proof fn law_bytes_are_read_big_endian(s: Seq<u8>)
    ensures
        un_be(s) < pow(256, s.len()),
        spells(s, s.len(), un_be(s) as int),
{
    lemma_be_un_be(s);
    lemma_un_be_bound(s);
    lemma_pow256_is_pow(s.len());
    law_numbers_are_big_endian(un_be(s), s.len());
}

pub proof fn lemma_powers()
    ensures
        pow(256, 1) == 0x100,
        pow(256, 2) == 0x1_0000,
        pow(256, 4) == 0x1_0000_0000,
        pow(256, 8) == 0x1_0000_0000_0000_0000,
{
    lemma_pow1(256);
    lemma_pow_adds(256, 1, 1);
    let two = pow(256, 2);
    assert(two == 0x1_0000);
    lemma_pow_adds(256, 2, 2);
    assert(two * two == 0x1_0000_0000) by (nonlinear_arith)
        requires
            two == 0x1_0000,
    ;
    let four = pow(256, 4);
    lemma_pow_adds(256, 4, 4);
    assert(four * four == 0x1_0000_0000_0000_0000) by (nonlinear_arith)
        requires
            four == 0x1_0000_0000,
    ;
}

/// The bytes of a value other than null, as the native protocol lays them out.
pub open spec fn laid_out(v: ValueView, b: Seq<u8>) -> bool {
    match v {
        ValueView::Null => false,
        ValueView::Int(x) => spells(b, 4, x as int),
        ValueView::BigInt(x) => spells(b, 8, x as int),
        ValueView::SmallInt(x) => spells(b, 2, x as int),
        ValueView::TinyInt(x) => spells(b, 1, x as int),
        ValueView::Float(x) => spells(b, 4, x as int),
        ValueView::Double(x) => spells(b, 8, x as int),
        ValueView::Boolean(x) => spells(
            b,
            1,
            if x {
                1
            } else {
                0
            },
        ),
        ValueView::Text(x) => valid_utf8(b) && decode_utf8(b) == x,
        ValueView::Blob(x) => b == x,
        ValueView::Timestamp(x) => spells(b, 8, x as int),
        ValueView::Uuid(x) => b == x,
        ValueView::Inet(x) => b == x,
        ValueView::SetOf(x) => b.len() >= 4 && spells(b.take(4), 4, x.len() as int) && b.skip(4)
            == x.map_values(|e: ValueView| wire(e)).flatten(),
        ValueView::List(x) => b.len() >= 4 && spells(b.take(4), 4, x.len() as int) && b.skip(4)
            == x.map_values(|e: ValueView| wire(e)).flatten(),
        ValueView::MapOf(x) => b.len() >= 4 && spells(b.take(4), 4, x.len() as int) && b.skip(4)
            == x.map_values(|e: (ValueView, ValueView)| wire(e.0) + wire(e.1)).flatten(),
    }
}

proof fn lemma_flatten_push<A>(xs: Seq<Seq<A>>, x: Seq<A>)
    ensures
        xs.push(x).flatten() == xs.flatten() + x,
    decreases xs.len(),
{
    xs.push(x).lemma_flatten_and_flatten_alt_are_equivalent();
    xs.lemma_flatten_and_flatten_alt_are_equivalent();
    assert(xs.push(x).drop_last() =~= xs);
}

proof fn lemma_wire_all_flat(vs: Seq<ValueView>)
    ensures
        wire_all(vs) == vs.map_values(|e: ValueView| wire(e)).flatten(),
    decreases vs.len(),
{
    let f = |e: ValueView| wire(e);
    if vs.len() > 0 {
        let front = vs.drop_last();
        lemma_wire_all_flat(front);
        assert(vs.map_values(f) =~= front.map_values(f).push(wire(vs.last())));
        lemma_flatten_push(front.map_values(f), wire(vs.last()));
    } else {
        assert(vs.map_values(f).flatten() =~= Seq::empty());
    }
}

proof fn lemma_wire_pairs_flat(es: Seq<(ValueView, ValueView)>)
    ensures
        wire_pairs(es) == es.map_values(
            |e: (ValueView, ValueView)| wire(e.0) + wire(e.1),
        ).flatten(),
    decreases es.len(),
{
    let f = |e: (ValueView, ValueView)| wire(e.0) + wire(e.1);
    if es.len() > 0 {
        let front = es.drop_last();
        lemma_wire_pairs_flat(front);
        assert(es.map_values(f) =~= front.map_values(f).push(f(es.last())));
        lemma_flatten_push(front.map_values(f), f(es.last()));
    } else {
        assert(es.map_values(f).flatten() =~= Seq::empty());
    }
}

pub proof fn lemma_twos_complement(a: i8, b: i16, c: i32, d: i64)
    ensures
        (a as u8) as int == if a < 0 {
            a + 0x100
        } else {
            a as int
        },
        (b as u16) as int == if b < 0 {
            b + 0x1_0000
        } else {
            b as int
        },
        (c as u32) as int == if c < 0 {
            c + 0x1_0000_0000
        } else {
            c as int
        },
        (d as u64) as int == if d < 0 {
            d + 0x1_0000_0000_0000_0000
        } else {
            d as int
        },
{
    assert(a < 0 ==> (a as u8) == a + 0x100) by (bit_vector);
    assert(a >= 0 ==> (a as u8) == a) by (bit_vector);
    assert(b < 0 ==> (b as u16) == b + 0x1_0000) by (bit_vector);
    assert(b >= 0 ==> (b as u16) == b) by (bit_vector);
    assert(c < 0 ==> (c as u32) == c + 0x1_0000_0000) by (bit_vector);
    assert(c >= 0 ==> (c as u32) == c) by (bit_vector);
    assert(d < 0 ==> (d as u64) == d + 0x1_0000_0000_0000_0000) by (bit_vector);
    assert(d >= 0 ==> (d as u64) == d) by (bit_vector);
}

pub proof fn lemma_spells(v: nat, n: nat)
    ensures
        spells(be(v, n), n, v as int),
{
    law_numbers_are_big_endian(v, n);
}

pub proof fn lemma_spells_negative(v: nat, n: nat, x: int)
    requires
        v == if x < 0 {
            x + pow(256, n)
        } else {
            x
        },
    ensures
        spells(be(v, n), n, x),
{
    law_numbers_are_big_endian(v, n);
}

proof fn lemma_count_bound(vs: Seq<ValueView>)
    ensures
        vs.len() * 4 <= wire_all(vs).len(),
    decreases vs.len(),
{
    if vs.len() > 0 {
        lemma_count_bound(vs.drop_last());
        lemma_wire_long(vs.last());
    }
}

proof fn lemma_pair_count_bound(es: Seq<(ValueView, ValueView)>)
    ensures
        es.len() * 8 <= wire_pairs(es).len(),
    decreases es.len(),
{
    if es.len() > 0 {
        lemma_pair_count_bound(es.drop_last());
        lemma_wire_long(es.last().0);
        lemma_wire_long(es.last().1);
    }
}

pub proof fn lemma_length_spelt(n: nat)
    requires
        n <= i32::MAX,
    ensures
        spells(be_len(n), 4, n as int),
{
    lemma_twos_complement(0, 0, n as i32, 0);
    lemma_spells(n, 4);
}

/// A value is sent as the protocol lays values out: its bytes, big-endian where
/// they are a number, behind their count; null as the count -1.
pub proof fn law_values_are_laid_out(v: ValueView)
    requires
        raw(v).len() <= i32::MAX,
    ensures
        v is Null ==> spells(wire(v), 4, -1),
        v !is Null ==> {
            &&& wire(v).len() == 4 + raw(v).len()
            &&& spells(wire(v).take(4), 4, raw(v).len() as int)
            &&& wire(v).skip(4) == raw(v)
            &&& laid_out(v, raw(v))
        },
{
    lemma_powers();
    if v is Null {
        lemma_twos_complement(0, 0, (-1) as i32, 0);
        lemma_spells_negative(0xFFFF_FFFF, 4, -1);
    } else {
        lemma_length_spelt(raw(v).len());
        assert(wire(v).take(4) =~= be_len(raw(v).len()));
        assert(wire(v).skip(4) =~= raw(v));
        match v {
            ValueView::Int(x) => {
                lemma_twos_complement(0, 0, x, 0);
                lemma_spells_negative((x as u32) as nat, 4, x as int);
            },
            ValueView::BigInt(x) => {
                lemma_twos_complement(0, 0, 0, x);
                lemma_spells_negative((x as u64) as nat, 8, x as int);
            },
            ValueView::SmallInt(x) => {
                lemma_twos_complement(0, x, 0, 0);
                lemma_spells_negative((x as u16) as nat, 2, x as int);
            },
            ValueView::TinyInt(x) => {
                lemma_twos_complement(x, 0, 0, 0);
                lemma_pow0(256);
            },
            ValueView::Float(x) => lemma_spells(x as nat, 4),
            ValueView::Double(x) => lemma_spells(x as nat, 8),
            ValueView::Timestamp(x) => {
                lemma_twos_complement(0, 0, 0, x);
                lemma_spells_negative((x as u64) as nat, 8, x as int);
            },
            ValueView::Boolean(_) => lemma_pow0(256),
            ValueView::Text(x) => {
                encode_utf8_valid_utf8(x);
                encode_utf8_decode_utf8(x);
            },
            ValueView::SetOf(x) => {
                lemma_count_bound(x);
                lemma_wire_all_flat(x);
                lemma_length_spelt(x.len());
                assert(raw(v).take(4) =~= be_len(x.len()));
                assert(raw(v).skip(4) =~= wire_all(x));
            },
            ValueView::List(x) => {
                lemma_count_bound(x);
                lemma_wire_all_flat(x);
                lemma_length_spelt(x.len());
                assert(raw(v).take(4) =~= be_len(x.len()));
                assert(raw(v).skip(4) =~= wire_all(x));
            },
            ValueView::MapOf(x) => {
                lemma_pair_count_bound(x);
                lemma_wire_pairs_flat(x);
                lemma_length_spelt(x.len());
                assert(raw(v).take(4) =~= be_len(x.len()));
                assert(raw(v).skip(4) =~= wire_pairs(x));
            },
            _ => {},
        }
    }
}

/// The name under which the native protocol, version 4, lists a type option.
pub open spec fn option_name(option: int) -> Seq<char> {
    if option == 0x0001 {
        "ascii"@
    } else if option == 0x0002 {
        "bigint"@
    } else if option == 0x0003 {
        "blob"@
    } else if option == 0x0004 {
        "boolean"@
    } else if option == 0x0005 {
        "counter"@
    } else if option == 0x0006 {
        "decimal"@
    } else if option == 0x0007 {
        "double"@
    } else if option == 0x0008 {
        "float"@
    } else if option == 0x0009 {
        "int"@
    } else if option == 0x000B {
        "timestamp"@
    } else if option == 0x000C {
        "uuid"@
    } else if option == 0x000D {
        "varchar"@
    } else if option == 0x000E {
        "varint"@
    } else if option == 0x000F {
        "timeuuid"@
    } else if option == 0x0010 {
        "inet"@
    } else if option == 0x0011 {
        "date"@
    } else if option == 0x0012 {
        "time"@
    } else if option == 0x0013 {
        "smallint"@
    } else if option == 0x0014 {
        "tinyint"@
    } else if option == 0x0020 {
        "list"@
    } else if option == 0x0021 {
        "map"@
    } else if option == 0x0022 {
        "set"@
    } else {
        "custom"@
    }
}

/// How many bytes a value of a type option has, where the protocol fixes it.
pub open spec fn option_width(option: int) -> Option<int> {
    if option == 0x0004 || option == 0x0014 {
        Some(1)
    } else if option == 0x0013 {
        Some(2)
    } else if option == 0x0008 || option == 0x0009 {
        Some(4)
    } else if option == 0x0002 || option == 0x0007 || option == 0x000B {
        Some(8)
    } else if option == 0x000C {
        Some(16)
    } else {
        None
    }
}

/// The option of a type is the one that the protocol lists under the type's CQL
/// name; that of `text` is listed as `varchar`.
pub proof fn law_type_options_are_listed(t: ColumnType)
    ensures
        match t {
            ColumnType::Text => option_name(type_code(t) as int) == "varchar"@ && type_text(t)
                == "text"@,
            ColumnType::SetOf(e) => option_name(type_code(t) as int) == "set"@ && type_text(t)
                == "set<"@ + type_text(*e) + ">"@,
            ColumnType::List(e) => option_name(type_code(t) as int) == "list"@ && type_text(t)
                == "list<"@ + type_text(*e) + ">"@,
            ColumnType::MapOf(k, e) => option_name(type_code(t) as int) == "map"@ && type_text(t)
                == "map<"@ + type_text(*k) + ", "@ + type_text(*e) + ">"@,
            _ => option_name(type_code(t) as int) == type_text(t),
        },
{
}

/// Different types have different options, but for what a collection holds.
pub proof fn law_type_options_tell_types_apart(a: ColumnType, b: ColumnType)
    requires
        type_code(a) == type_code(b),
    ensures
        match (a, b) {
            (ColumnType::SetOf(_), ColumnType::SetOf(_)) => true,
            (ColumnType::List(_), ColumnType::List(_)) => true,
            (ColumnType::MapOf(_, _), ColumnType::MapOf(_, _)) => true,
            _ => a == b,
        },
{
}

/// The bytes of a value are as many as the option of its type announces.
pub proof fn law_values_have_their_option_width(v: ValueView, t: ColumnType)
    requires
        typed(v, t),
    ensures
        option_width(type_code(t) as int) matches Some(n) ==> raw(v).len() == n,
        option_width(type_code(t) as int) is None ==> (t is Text || t is Blob || t is Inet
            || t is SetOf || t is List || t is MapOf),
{
    law_values_are_laid_out(v);
}

/// A type is announced by its option in two bytes, a collection's followed by
/// the options of what it holds.
pub proof fn law_type_options_are_written(t: ColumnType)
    ensures
        spells(wire_type(t).take(2), 2, type_code(t) as int),
        match t {
            ColumnType::SetOf(e) => wire_type(t).len() == 4 && spells(
                wire_type(t).skip(2),
                2,
                type_code(*e) as int,
            ),
            ColumnType::List(e) => wire_type(t).len() == 4 && spells(
                wire_type(t).skip(2),
                2,
                type_code(*e) as int,
            ),
            ColumnType::MapOf(k, e) => wire_type(t).len() == 6 && spells(
                wire_type(t).subrange(2, 4),
                2,
                type_code(*k) as int,
            ) && spells(wire_type(t).skip(4), 2, type_code(*e) as int),
            _ => wire_type(t).len() == 2,
        },
{
    lemma_spells(type_code(t) as nat, 2);
    assert(wire_type(t).take(2) =~= be16(type_code(t)));
    match t {
        ColumnType::SetOf(e) => {
            lemma_spells(type_code(*e) as nat, 2);
            assert(wire_type(t).skip(2) =~= be16(type_code(*e)));
        },
        ColumnType::List(e) => {
            lemma_spells(type_code(*e) as nat, 2);
            assert(wire_type(t).skip(2) =~= be16(type_code(*e)));
        },
        ColumnType::MapOf(k, e) => {
            lemma_spells(type_code(*k) as nat, 2);
            lemma_spells(type_code(*e) as nat, 2);
            assert(wire_type(t).subrange(2, 4) =~= be16(type_code(*k)));
            assert(wire_type(t).skip(4) =~= be16(type_code(*e)));
        },
        _ => {},
    }
}

proof fn lemma_read_int(p: Seq<u8>)
    ensures
        p.len() == 2 ==> spells(p, 2, i16_of(p) as int),
        p.len() == 4 ==> spells(p, 4, i32_of(p) as int),
        p.len() == 8 ==> spells(p, 8, i64_of(p) as int),
{
    lemma_powers();
    law_bytes_are_read_big_endian(p);
    let v = un_be(p);
    let a = v as u16;
    let b = v as u32;
    let c = v as u64;
    assert((a as i16) as u16 == a) by (bit_vector);
    assert((b as i32) as u32 == b) by (bit_vector);
    assert((c as i64) as u64 == c) by (bit_vector);
    lemma_twos_complement(0, a as i16, b as i32, c as i64);
}

/// Bytes are read as a value of a type exactly if they are such a value as the
/// protocol lays it out: as many bytes as the option of the type announces, and
/// UTF-8 for a text. Of a `tinyint` and of a `boolean` the first byte counts, and
/// every byte but zero is true.
pub proof fn law_bytes_are_read_as_laid_out(p: Seq<u8>, t: ColumnType)
    requires
        !(t is SetOf || t is List || t is MapOf),
    ensures
        decode_payload(p, t) is Ok <==> match t {
            ColumnType::TinyInt => p.len() >= 1,
            ColumnType::Boolean => p.len() >= 1,
            ColumnType::Text => valid_utf8(p),
            ColumnType::Blob => true,
            ColumnType::Inet => p.len() == 4 || p.len() == 16,
            _ => option_width(type_code(t) as int) == Some(p.len() as int),
        },
        decode_payload(p, t) matches Ok(v) ==> match t {
            ColumnType::TinyInt => laid_out(v, p.take(1)) && v is TinyInt,
            ColumnType::Boolean => v == ValueView::Boolean(p[0] != 0),
            _ => laid_out(v, p) && typed_alike(v, t),
        },
{
    lemma_read_int(p);
    lemma_powers();
    lemma_pow0(256);
    law_bytes_are_read_big_endian(p);
    if t is TinyInt && p.len() >= 1 {
        let x = p[0];
        assert((x as i8) as u8 == x) by (bit_vector);
        lemma_twos_complement(x as i8, 0, 0, 0);
        assert(p.take(1)[0] == x);
    }
}

/// Whether a value is one of a type that is no collection, whatever its size.
pub open spec fn typed_alike(v: ValueView, t: ColumnType) -> bool {
    match t {
        ColumnType::Int => v is Int,
        ColumnType::BigInt => v is BigInt,
        ColumnType::SmallInt => v is SmallInt,
        ColumnType::TinyInt => v is TinyInt,
        ColumnType::Float => v is Float,
        ColumnType::Double => v is Double,
        ColumnType::Boolean => v is Boolean,
        ColumnType::Text => v is Text,
        ColumnType::Blob => v is Blob,
        ColumnType::Timestamp => v is Timestamp,
        ColumnType::Uuid => v is Uuid,
        ColumnType::Inet => v is Inet,
        _ => false,
    }
}

} // verus!
