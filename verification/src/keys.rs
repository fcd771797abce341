//! The layout of keys and rows inside an engine.

use crate::bytes::{
    be16, be_i32, copy_bytes, get_i32, get_u16, has_prefix, i32_of, lemma_be16_back, lemma_be16_of,
    lemma_i32_back, put_bytes, put_u16, starts_with, un_be,
};
use crate::cql_value::{
    decode, decode_error_text, law_wire_round_trip, lemma_value_views, lemma_wire_long, raw, typed,
    value_views, wire, Value, ValueView,
};
use crate::schema::{ColumnView, TableDef};
use crate::text::{decimal, push_decimal};
use vstd::prelude::*;
use vstd::utf8::encode_utf8;

verus! {

/// `!`, which ends the parts of a key prefix.
pub const BANG: u8 = 0x21;

/// `ks!`, before the keys of keyspace definitions.
pub open spec fn ks_tag() -> Seq<u8> {
    seq![0x6b, 0x73, 0x21]
}

/// `tb!`, before the keys of table definitions.
pub open spec fn tb_tag() -> Seq<u8> {
    seq![0x74, 0x62, 0x21]
}

/// `dt!`, before the keys of rows.
pub open spec fn dt_tag() -> Seq<u8> {
    seq![0x64, 0x74, 0x21]
}

/// The key of a keyspace definition.
pub open spec fn keyspace_key(name: Seq<char>) -> Seq<u8> {
    ks_tag() + encode_utf8(name)
}

/// What the keys of a keyspace's table definitions begin with.
pub open spec fn tables_prefix(keyspace: Seq<char>) -> Seq<u8> {
    tb_tag() + encode_utf8(keyspace) + seq![BANG]
}

/// The key of a table definition.
pub open spec fn table_key(keyspace: Seq<char>, table: Seq<char>) -> Seq<u8> {
    tables_prefix(keyspace) + encode_utf8(table)
}

/// What the keys of a keyspace's rows begin with.
pub open spec fn keyspace_data_prefix(keyspace: Seq<char>) -> Seq<u8> {
    dt_tag() + encode_utf8(keyspace) + seq![BANG]
}

/// What the keys of a table's rows begin with.
pub open spec fn data_prefix(keyspace: Seq<char>, table: Seq<char>) -> Seq<u8> {
    keyspace_data_prefix(keyspace) + encode_utf8(table) + seq![BANG]
}

/// The bytes that a list of byte vectors holds.
pub open spec fn part_views(parts: Seq<Vec<u8>>) -> Seq<Seq<u8>> {
    parts.map_values(|p: Vec<u8>| p@)
}

/// The parts of a key, each behind the low 16 bits of its length.
pub open spec fn key_bytes(parts: Seq<Seq<u8>>) -> Seq<u8>
    decreases parts.len(),
{
    if parts.len() == 0 {
        Seq::empty()
    } else {
        key_bytes(parts.drop_last()) + be16(parts.last().len() as u16) + parts.last()
    }
}

/// The key of a row.
pub open spec fn row_key(keyspace: Seq<char>, table: Seq<char>, parts: Seq<Seq<u8>>) -> Seq<u8> {
    data_prefix(keyspace, table) + key_bytes(parts)
}

pub fn keyspace_key_of(name: &str) -> (key: Vec<u8>)
    ensures
        key@ == keyspace_key(name@),
{
    let mut key: Vec<u8> = vec![0x6b, 0x73, 0x21];
    put_bytes(&mut key, name.as_bytes());
    assert(key@ =~= keyspace_key(name@));
    key
}

pub fn tables_prefix_of(keyspace: &str) -> (key: Vec<u8>)
    ensures
        key@ == tables_prefix(keyspace@),
{
    let mut key: Vec<u8> = vec![0x74, 0x62, 0x21];
    put_bytes(&mut key, keyspace.as_bytes());
    key.push(BANG);
    assert(key@ =~= tables_prefix(keyspace@));
    key
}

pub fn table_key_of(keyspace: &str, table: &str) -> (key: Vec<u8>)
    ensures
        key@ == table_key(keyspace@, table@),
{
    let mut key: Vec<u8> = tables_prefix_of(keyspace);
    put_bytes(&mut key, table.as_bytes());
    key
}

pub fn keyspace_data_prefix_of(keyspace: &str) -> (key: Vec<u8>)
    ensures
        key@ == keyspace_data_prefix(keyspace@),
{
    let mut key: Vec<u8> = vec![0x64, 0x74, 0x21];
    put_bytes(&mut key, keyspace.as_bytes());
    key.push(BANG);
    assert(key@ =~= keyspace_data_prefix(keyspace@));
    key
}

pub fn data_prefix_of(keyspace: &str, table: &str) -> (key: Vec<u8>)
    ensures
        key@ == data_prefix(keyspace@, table@),
{
    let mut key: Vec<u8> = keyspace_data_prefix_of(keyspace);
    put_bytes(&mut key, table.as_bytes());
    key.push(BANG);
    assert(key@ =~= data_prefix(keyspace@, table@));
    key
}

pub fn row_key_of(keyspace: &str, table: &str, parts: &[Vec<u8>]) -> (key: Vec<u8>)
    ensures
        key@ == row_key(keyspace@, table@, part_views(parts@)),
{
    let mut key: Vec<u8> = data_prefix_of(keyspace, table);
    put_bytes(&mut key, &encode_key(parts));
    key
}

/// The bytes of a key: each part behind the low 16 bits of its length.
pub fn encode_key(parts: &[Vec<u8>]) -> (out: Vec<u8>)
    ensures
        out@ == key_bytes(part_views(parts@)),
{
    let mut out: Vec<u8> = Vec::new();
    let ghost views = part_views(parts@);
    let mut i: usize = 0;
    assert(views.take(0) =~= Seq::<Seq<u8>>::empty());
    while i < parts.len()
        invariant
            i <= parts@.len(),
            views == part_views(parts@),
            out@ == key_bytes(views.take(i as int)),
        decreases parts@.len() - i,
    {
        let p: &Vec<u8> = &parts[i];
        put_u16(&mut out, p.len() as u16);
        put_bytes(&mut out, p);
        proof {
            assert(views.take(i + 1).drop_last() =~= views.take(i as int));
            assert(views.take(i + 1).last() == p@);
        }
        i += 1;
    }
    assert(views.take(i as int) =~= views);
    out
}

/// The parts that the bytes of a key from `at` on hold, unless they end inside
/// a part.
pub open spec fn key_parts(key: Seq<u8>, at: int) -> Option<Seq<Seq<u8>>>
    decreases key.len() - at,
{
    if at >= key.len() {
        Some(Seq::empty())
    } else if key.len() - at < 2 {
        None
    } else {
        let len = un_be(key.subrange(at, at + 2));
        if key.len() - at < 2 + len {
            None
        } else {
            match key_parts(key, at + 2 + len) {
                Some(rest) => Some(seq![key.subrange(at + 2, at + 2 + len)] + rest),
                None => None,
            }
        }
    }
}

/// What decoding a key under a prefix gives.
pub open spec fn decoded_key(prefix: Seq<u8>, key: Seq<u8>) -> Result<Seq<Seq<u8>>, Seq<char>> {
    if !has_prefix(key, prefix) {
        Err("key does not belong to table"@)
    } else {
        match key_parts(key, prefix.len() as int) {
            Some(parts) => Ok(parts),
            None => Err("corrupt key"@),
        }
    }
}

pub open spec fn parts_result(r: Result<Vec<Vec<u8>>, String>) -> Result<
    Seq<Seq<u8>>,
    Seq<char>,
> {
    match r {
        Ok(parts) => Ok(part_views(parts@)),
        Err(e) => Err(e@),
    }
}

/// The parts of a key that begins with `prefix`.
pub fn decode_key_data(prefix: &[u8], full_key: &[u8]) -> (r: Result<Vec<Vec<u8>>, String>)
    ensures
        parts_result(r) == decoded_key(prefix@, full_key@),
{
    if !starts_with(full_key, prefix) {
        return Err("key does not belong to table".to_owned());
    }
    let ghost all = key_parts(full_key@, prefix@.len() as int);
    let mut parts: Vec<Vec<u8>> = Vec::new();
    let mut at: usize = prefix.len();
    proof {
        assert(part_views(parts@) =~= Seq::<Seq<u8>>::empty());
        if let Some(rest) = all {
            assert(part_views(parts@) + rest =~= rest);
        }
    }
    while at < full_key.len()
        invariant
            at <= full_key@.len(),
            has_prefix(full_key@, prefix@),
            all == key_parts(full_key@, prefix@.len() as int),
            all == (match key_parts(full_key@, at as int) {
                Some(rest) => Some(part_views(parts@) + rest),
                None => None,
            }),
        decreases full_key@.len() - at,
    {
        if full_key.len() - at < 2 {
            return Err("corrupt key".to_owned());
        }
        let len: usize = get_u16(full_key, at) as usize;
        if full_key.len() - at - 2 < len {
            return Err("corrupt key".to_owned());
        }
        let part: Vec<u8> = copy_bytes(&full_key[at + 2..at + 2 + len]);
        let ghost before = part_views(parts@);
        parts.push(part);
        proof {
            assert(part_views(parts@) =~= before.push(part@));
            if let Some(rest) = key_parts(full_key@, at + 2 + len) {
                assert(before + (seq![part@] + rest) =~= part_views(parts@) + rest);
            }
        }
        at += 2 + len;
    }
    assert(part_views(parts@) + Seq::<Seq<u8>>::empty() =~= part_views(parts@));
    Ok(parts)
}

/// The parts of the key of a row of a table.
pub fn decode_key(keyspace: &str, table: &str, full_key: &[u8]) -> (r: Result<
    Vec<Vec<u8>>,
    String,
>)
    ensures
        parts_result(r) == decoded_key(data_prefix(keyspace@, table@), full_key@),
{
    decode_key_data(&data_prefix_of(keyspace, table), full_key)
}

/// Whether the parts of a key are short enough for their length prefixes.
pub open spec fn parts_fit(parts: Seq<Seq<u8>>) -> bool {
    forall|i: int| 0 <= i < parts.len() ==> (#[trigger] parts[i]).len() <= u16::MAX
}

proof fn lemma_key_split(parts: Seq<Seq<u8>>, i: int)
    requires
        0 <= i <= parts.len(),
    ensures
        key_bytes(parts) == key_bytes(parts.take(i)) + key_bytes(parts.skip(i)),
    decreases parts.len(),
{
    if i == parts.len() {
        assert(parts.take(i) =~= parts);
        assert(parts.skip(i) =~= Seq::<Seq<u8>>::empty());
        assert(key_bytes(parts) =~= key_bytes(parts) + Seq::<u8>::empty());
    } else {
        let init = parts.drop_last();
        lemma_key_split(init, i);
        assert(init.take(i) =~= parts.take(i));
        assert(parts.skip(i).drop_last() =~= init.skip(i));
        assert(parts.skip(i).last() == parts.last());
        assert(key_bytes(parts) =~= key_bytes(parts.take(i)) + key_bytes(parts.skip(i)));
    }
}

proof fn lemma_key_back(prefix: Seq<u8>, parts: Seq<Seq<u8>>, i: int)
    requires
        0 <= i <= parts.len(),
        parts_fit(parts),
    ensures
        key_parts(
            prefix + key_bytes(parts),
            (prefix.len() + key_bytes(parts.take(i)).len()) as int,
        ) == Some(parts.skip(i)),
    decreases parts.len() - i,
{
    let key = prefix + key_bytes(parts);
    let at = (prefix.len() + key_bytes(parts.take(i)).len()) as int;
    lemma_key_split(parts, i);
    if i == parts.len() {
        assert(parts.take(i) =~= parts);
        assert(parts.skip(i) =~= Seq::<Seq<u8>>::empty());
    } else {
        lemma_key_back(prefix, parts, i + 1);
        let p = parts[i];
        assert(parts[i].len() <= u16::MAX);
        lemma_be16_back(p.len() as u16);
        lemma_key_split(parts, i + 1);
        assert(parts.take(i + 1).drop_last() =~= parts.take(i));
        let head = prefix + key_bytes(parts.take(i));
        let tail = key_bytes(parts.skip(i + 1));
        assert(key =~= head + be16(p.len() as u16) + p + tail);
        assert(key.subrange(at, at + 2) =~= be16(p.len() as u16));
        assert(key.subrange(at + 2, at + 2 + p.len()) =~= p);
        assert(seq![p] + parts.skip(i + 1) =~= parts.skip(i));
    }
}

/// The parts of a key are read back from it.
pub proof fn law_key_round_trip(prefix: Seq<u8>, parts: Seq<Seq<u8>>)
    requires
        parts_fit(parts),
    ensures
        decoded_key(prefix, prefix + key_bytes(parts)) == Ok::<Seq<Seq<u8>>, Seq<char>>(parts),
{
    lemma_key_back(prefix, parts, 0);
    assert(parts.take(0) =~= Seq::<Seq<u8>>::empty());
    assert(parts.skip(0) =~= parts);
    assert((prefix + key_bytes(parts)).subrange(0, prefix.len() as int) =~= prefix);
}

/// A key begins with its first part, behind its length.
proof fn lemma_key_front(parts: Seq<Seq<u8>>)
    requires
        parts.len() > 0,
    ensures
        key_bytes(parts) == be16(parts[0].len() as u16) + parts[0] + key_bytes(parts.drop_first()),
{
    lemma_key_split(parts, 1);
    let first = parts.take(1);
    assert(first.drop_last() =~= Seq::<Seq<u8>>::empty());
    assert(key_bytes(first.drop_last()) =~= Seq::<u8>::empty());
    assert(key_bytes(first) =~= be16(parts[0].len() as u16) + parts[0]);
    assert(parts.skip(1) =~= parts.drop_first());
}

/// One key is a prefix of another exactly where its parts are the first parts
/// of the other.
pub proof fn law_key_prefix_is_part_prefix(a: Seq<Seq<u8>>, b: Seq<Seq<u8>>)
    requires
        parts_fit(a),
        parts_fit(b),
    ensures
        has_prefix(key_bytes(b), key_bytes(a)) <==> a.len() <= b.len() && b.take(a.len() as int)
            == a,
    decreases a.len(),
{
    let ka = key_bytes(a);
    let kb = key_bytes(b);
    if a.len() == 0 {
        assert(kb.subrange(0, 0) =~= ka);
        assert(b.take(0) =~= a);
    } else if b.len() == 0 {
        lemma_key_front(a);
    } else {
        lemma_key_front(a);
        lemma_key_front(b);
        let p = a[0];
        let q = b[0];
        let ra = a.drop_first();
        let rb = b.drop_first();
        assert(parts_fit(ra)) by {
            assert forall|i: int| 0 <= i < ra.len() implies (#[trigger] ra[i]).len()
                <= u16::MAX by {
                assert(ra[i] == a[i + 1]);
            }
        }
        assert(parts_fit(rb)) by {
            assert forall|i: int| 0 <= i < rb.len() implies (#[trigger] rb[i]).len()
                <= u16::MAX by {
                assert(rb[i] == b[i + 1]);
            }
        }
        law_key_prefix_is_part_prefix(ra, rb);
        lemma_be16_back(p.len() as u16);
        lemma_be16_back(q.len() as u16);
        if has_prefix(kb, ka) {
            assert forall|i: int| 0 <= i < ka.len() implies kb[i] == ka[i] by {
                assert(kb.subrange(0, ka.len() as int)[i] == ka[i]);
            }
            assert(be16(p.len() as u16) =~= be16(q.len() as u16)) by {
                assert(ka.subrange(0, 2) =~= be16(p.len() as u16));
                assert(kb.subrange(0, 2) =~= be16(q.len() as u16));
                assert(ka.subrange(0, 2) =~= kb.subrange(0, 2));
            }
            assert(p.len() == q.len());
            let n = p.len() as int;
            assert(p =~= q) by {
                assert(ka.subrange(2, 2 + n) =~= p);
                assert(kb.subrange(2, 2 + n) =~= q);
                assert(ka.subrange(2, 2 + n) =~= kb.subrange(2, 2 + n));
            }
            let ta = key_bytes(ra);
            let tb = key_bytes(rb);
            assert(tb.subrange(0, ta.len() as int) =~= ta) by {
                assert forall|i: int| 0 <= i < ta.len() implies tb[i] == ta[i] by {
                    assert(ka[2 + n + i] == ta[i]);
                    assert(kb[2 + n + i] == tb[i]);
                }
            }
            assert(b.take(a.len() as int) =~= seq![q] + rb.take(ra.len() as int));
            assert(a =~= seq![p] + ra);
        }
        if a.len() <= b.len() && b.take(a.len() as int) == a {
            assert(b.take(a.len() as int)[0] == b[0]);
            assert(rb.take(ra.len() as int) =~= ra) by {
                assert forall|i: int| 0 <= i < ra.len() implies rb[i] == ra[i] by {
                    assert(b.take(a.len() as int)[i + 1] == a[i + 1]);
                }
            }
            let ta = key_bytes(ra);
            let tb = key_bytes(rb);
            let head = be16(p.len() as u16) + p;
            assert(kb.subrange(0, ka.len() as int) =~= head + tb.subrange(0, ta.len() as int));
            assert(kb.subrange(0, ka.len() as int) =~= ka);
        }
    }
}

/// What parts are read from a key encodes to what was read.
proof fn lemma_parts_encode(key: Seq<u8>, at: int)
    requires
        0 <= at <= key.len(),
        key_parts(key, at) is Some,
    ensures
        parts_fit(key_parts(key, at)->Some_0),
        key_bytes(key_parts(key, at)->Some_0) == key.skip(at),
    decreases key.len() - at,
{
    let parts = key_parts(key, at)->Some_0;
    if at < key.len() {
        let head = key.subrange(at, at + 2);
        let len = un_be(head);
        lemma_be16_of(head);
        let p = key.subrange(at + 2, at + 2 + len);
        let rest = key_parts(key, at + 2 + len)->Some_0;
        lemma_parts_encode(key, at + 2 + len);
        assert(parts =~= seq![p] + rest);
        assert(parts.drop_first() =~= rest);
        lemma_key_front(parts);
        assert(key.skip(at) =~= head + p + key.skip(at + 2 + len));
        assert forall|i: int| 0 <= i < parts.len() implies (#[trigger] parts[i]).len()
            <= u16::MAX by {
            if i > 0 {
                assert(parts[i] == rest[i - 1]);
            }
        }
    } else {
        assert(key.skip(at) =~= Seq::<u8>::empty());
    }
}

/// A key that was decoded is the encoding of its parts.
pub proof fn law_decoded_key_is_encoding(prefix: Seq<u8>, key: Seq<u8>)
    requires
        decoded_key(prefix, key) is Ok,
    ensures
        ({
            let parts = decoded_key(prefix, key)->Ok_0;
            parts_fit(parts) && key == prefix + key_bytes(parts)
        }),
{
    let n = prefix.len() as int;
    lemma_parts_encode(key, n);
    assert(key =~= key.subrange(0, n) + key.skip(n));
}

/// Rows of a table with different keys are kept apart.
pub proof fn law_rows_do_not_collide(
    keyspace: Seq<char>,
    table: Seq<char>,
    a: Seq<Seq<u8>>,
    b: Seq<Seq<u8>>,
)
    requires
        parts_fit(a),
        parts_fit(b),
        row_key(keyspace, table, a) == row_key(keyspace, table, b),
    ensures
        a == b,
{
    law_key_round_trip(data_prefix(keyspace, table), a);
    law_key_round_trip(data_prefix(keyspace, table), b);
}

/// The keys of a partition's rows begin with the key of the partition.
pub proof fn law_partition_prefix(
    keyspace: Seq<char>,
    table: Seq<char>,
    partition: Seq<Seq<u8>>,
    clustering: Seq<Seq<u8>>,
)
    ensures
        has_prefix(
            row_key(keyspace, table, partition + clustering),
            row_key(keyspace, table, partition),
        ),
        has_prefix(row_key(keyspace, table, partition), data_prefix(keyspace, table)),
{
    let parts = partition + clustering;
    lemma_key_split(parts, partition.len() as int);
    assert(parts.take(partition.len() as int) =~= partition);
    let whole = row_key(keyspace, table, parts);
    let part = row_key(keyspace, table, partition);
    assert(whole.subrange(0, part.len() as int) =~= part);
    assert(part.subrange(0, data_prefix(keyspace, table).len() as int) =~= data_prefix(
        keyspace,
        table,
    ));
}

/// Whether the UTF-8 of a name holds no `!`.
pub open spec fn no_bang(name: Seq<char>) -> bool {
    !encode_utf8(name).contains(BANG)
}

proof fn lemma_until_bang(a: Seq<u8>, x: Seq<u8>, b: Seq<u8>, y: Seq<u8>)
    requires
        !a.contains(BANG),
        !b.contains(BANG),
        a + seq![BANG] + x == b + seq![BANG] + y,
    ensures
        a == b,
        x == y,
{
    let s = a + seq![BANG] + x;
    let t = b + seq![BANG] + y;
    assert(s[a.len() as int] == BANG);
    assert(t[b.len() as int] == BANG);
    if a.len() < b.len() {
        assert(t[a.len() as int] == b[a.len() as int]);
        assert(b.contains(BANG));
    }
    if b.len() < a.len() {
        assert(s[b.len() as int] == a[b.len() as int]);
        assert(a.contains(BANG));
    }
    assert forall|i: int| 0 <= i < a.len() implies a[i] == b[i] by {
        assert(s[i] == a[i]);
        assert(t[i] == b[i]);
    }
    assert(a =~= b);
    assert(s.len() == a.len() + 1 + x.len());
    assert(t.len() == b.len() + 1 + y.len());
    assert forall|i: int| 0 <= i < x.len() implies x[i] == y[i] by {
        assert(s[a.len() + 1 + i] == x[i]);
        assert(t[a.len() + 1 + i] == y[i]);
    }
    assert(x =~= y);
}

/// Rows of different tables are kept apart, as long as no name holds a `!`.
pub proof fn law_tables_do_not_collide(
    keyspace: Seq<char>,
    table: Seq<char>,
    a: Seq<Seq<u8>>,
    other_keyspace: Seq<char>,
    other_table: Seq<char>,
    b: Seq<Seq<u8>>,
)
    requires
        no_bang(keyspace),
        no_bang(table),
        no_bang(other_keyspace),
        no_bang(other_table),
        row_key(keyspace, table, a) == row_key(other_keyspace, other_table, b),
    ensures
        keyspace == other_keyspace,
        table == other_table,
{
    let k1 = encode_utf8(keyspace);
    let k2 = encode_utf8(other_keyspace);
    let t1 = encode_utf8(table);
    let t2 = encode_utf8(other_table);
    let rest1 = t1 + seq![BANG] + key_bytes(a);
    let rest2 = t2 + seq![BANG] + key_bytes(b);
    let key = row_key(keyspace, table, a);
    assert(key.skip(3) =~= k1 + seq![BANG] + rest1);
    assert(row_key(other_keyspace, other_table, b).skip(3) =~= k2 + seq![BANG] + rest2);
    lemma_until_bang(k1, rest1, k2, rest2);
    lemma_until_bang(t1, key_bytes(a), t2, key_bytes(b));
    vstd::utf8::encode_utf8_decode_utf8(keyspace);
    vstd::utf8::encode_utf8_decode_utf8(other_keyspace);
    vstd::utf8::encode_utf8_decode_utf8(table);
    vstd::utf8::encode_utf8_decode_utf8(other_table);
}

/// The bytewise order of keys: whether `a` comes before `b`.
pub open spec fn before(a: Seq<u8>, b: Seq<u8>) -> bool
    decreases a.len(),
{
    if b.len() == 0 {
        false
    } else if a.len() == 0 {
        true
    } else {
        a[0] < b[0] || (a[0] == b[0] && before(a.drop_first(), b.drop_first()))
    }
}

/// Whether a key lies between `start`, inclusive, and `end`, exclusive.
pub open spec fn in_range(key: Seq<u8>, start: Seq<u8>, end: Seq<u8>) -> bool {
    !before(key, start) && before(key, end)
}

/// Whether `i` is where the last byte other than 0xFF stands.
pub open spec fn last_below_max(s: Seq<u8>, i: int) -> bool {
    &&& 0 <= i < s.len()
    &&& s[i] < 0xFF
    &&& forall|j: int| i < j < s.len() ==> #[trigger] s[j] == 0xFF
}

/// The prefix with its last byte below 0xFF raised by one; none if every byte
/// is 0xFF.
pub open spec fn upper_bound(prefix: Seq<u8>) -> Option<Seq<u8>>
    decreases prefix.len(),
{
    if prefix.len() == 0 {
        None
    } else if prefix.last() < 0xFF {
        Some(prefix.drop_last().push((prefix.last() + 1) as u8))
    } else {
        match upper_bound(prefix.drop_last()) {
            Some(end) => Some(end.push(0xFF)),
            None => None,
        }
    }
}

proof fn lemma_upper_bound_at(prefix: Seq<u8>, i: int)
    requires
        last_below_max(prefix, i),
    ensures
        upper_bound(prefix) == Some(prefix.update(i, (prefix[i] + 1) as u8)),
    decreases prefix.len(),
{
    let init = prefix.drop_last();
    if i == prefix.len() - 1 {
        assert(init.push((prefix.last() + 1) as u8) =~= prefix.update(i, (prefix[i] + 1) as u8));
    } else {
        assert(prefix.last() == 0xFF);
        assert(last_below_max(init, i));
        lemma_upper_bound_at(init, i);
        assert(init.update(i, (prefix[i] + 1) as u8).push(0xFF) =~= prefix.update(
            i,
            (prefix[i] + 1) as u8,
        ));
    }
}

proof fn lemma_no_upper_bound(prefix: Seq<u8>)
    requires
        forall|j: int| 0 <= j < prefix.len() ==> #[trigger] prefix[j] == 0xFF,
    ensures
        upper_bound(prefix) is None,
    decreases prefix.len(),
{
    if prefix.len() > 0 {
        lemma_no_upper_bound(prefix.drop_last());
    }
}

/// Exclusive end bound covering everything that starts with `prefix`. None
/// when every byte is 0xFF.
pub fn prefix_upper_bound(prefix: &[u8]) -> (r: Option<Vec<u8>>)
    ensures
        match r {
            Some(end) => upper_bound(prefix@) == Some(end@),
            None => upper_bound(prefix@) is None,
        },
{
    let mut i: usize = prefix.len();
    while i > 0
        invariant
            i <= prefix@.len(),
            forall|j: int| i <= j < prefix@.len() ==> #[trigger] prefix@[j] == 0xFF,
        decreases i,
    {
        if prefix[i - 1] < 0xFF {
            let mut end: Vec<u8> = copy_bytes(prefix);
            let raised: u8 = prefix[i - 1] + 1;
            end.set(i - 1, raised);
            proof {
                lemma_upper_bound_at(prefix@, i - 1);
            }
            return Some(end);
        }
        i -= 1;
    }
    proof {
        lemma_no_upper_bound(prefix@);
    }
    None
}

proof fn lemma_prefix_not_before(key: Seq<u8>, prefix: Seq<u8>)
    requires
        has_prefix(key, prefix),
    ensures
        !before(key, prefix),
    decreases prefix.len(),
{
    if prefix.len() > 0 {
        assert(key.drop_first().subrange(0, prefix.len() - 1) =~= prefix.drop_first()) by {
            assert(key.subrange(0, prefix.len() as int) == prefix);
            assert forall|j: int| 0 <= j < prefix.len() - 1 implies key.drop_first()[j]
                == prefix.drop_first()[j] by {
                assert(key.subrange(0, prefix.len() as int)[j + 1] == prefix[j + 1]);
            }
        }
        assert(key.subrange(0, prefix.len() as int)[0] == prefix[0]);
        lemma_prefix_not_before(key.drop_first(), prefix.drop_first());
    }
}

proof fn lemma_prefix_before_end(key: Seq<u8>, prefix: Seq<u8>, i: int)
    requires
        has_prefix(key, prefix),
        last_below_max(prefix, i),
    ensures
        before(key, prefix.update(i, (prefix[i] + 1) as u8)),
    decreases i,
{
    let end = prefix.update(i, (prefix[i] + 1) as u8);
    assert(key.subrange(0, prefix.len() as int)[0] == prefix[0]);
    if i > 0 {
        let k = key.drop_first();
        let p = prefix.drop_first();
        assert(k.subrange(0, p.len() as int) =~= p) by {
            assert forall|j: int| 0 <= j < p.len() implies k[j] == p[j] by {
                assert(key.subrange(0, prefix.len() as int)[j + 1] == prefix[j + 1]);
            }
        }
        assert(p[i - 1] == prefix[i]);
        assert forall|j: int| i - 1 < j < p.len() implies #[trigger] p[j] == 0xFF by {
            assert(prefix[j + 1] == 0xFF);
        }
        lemma_prefix_before_end(k, p, i - 1);
        assert(end.drop_first() =~= p.update(i - 1, (p[i - 1] + 1) as u8));
    }
}

/// A key between a prefix and its raised last byte begins with the prefix.
proof fn lemma_between(key: Seq<u8>, prefix: Seq<u8>)
    requires
        prefix.len() > 0,
        prefix.last() < 0xFF,
        in_range(key, prefix, prefix.drop_last().push((prefix.last() + 1) as u8)),
    ensures
        has_prefix(key, prefix),
    decreases prefix.len(),
{
    let end = prefix.drop_last().push((prefix.last() + 1) as u8);
    assert(key.len() > 0);
    if prefix.len() == 1 {
        reveal_with_fuel(before, 2);
        assert(end[0] == prefix[0] + 1);
        assert(!before(key.drop_first(), end.drop_first()));
        assert(key.subrange(0, 1) =~= prefix);
    } else {
        let k = key.drop_first();
        let p = prefix.drop_first();
        assert(end.drop_first() =~= p.drop_last().push((p.last() + 1) as u8));
        assert(end[0] == prefix[0]);
        assert(key[0] == prefix[0]);
        lemma_between(k, p);
        assert(key.subrange(0, prefix.len() as int) =~= prefix) by {
            assert forall|j: int| 0 <= j < prefix.len() implies key[j] == prefix[j] by {
                if j > 0 {
                    assert(k.subrange(0, p.len() as int)[j - 1] == p[j - 1]);
                }
            }
        }
    }
}

/// The range from a prefix to its bound covers every key with the prefix.
pub proof fn law_range_covers_prefix(key: Seq<u8>, prefix: Seq<u8>, end: Seq<u8>)
    requires
        upper_bound(prefix) == Some(end),
        has_prefix(key, prefix),
    ensures
        in_range(key, prefix, end),
{
    lemma_prefix_not_before(key, prefix);
    if exists|i: int| last_below_max(prefix, i) {
        let i = choose|i: int| last_below_max(prefix, i);
        lemma_upper_bound_at(prefix, i);
        lemma_prefix_before_end(key, prefix, i);
    } else {
        lemma_none_below_max(prefix, prefix.len() as int);
        lemma_no_upper_bound(prefix);
    }
}

proof fn lemma_none_below_max(s: Seq<u8>, n: int)
    requires
        0 <= n <= s.len(),
        forall|i: int| !last_below_max(s, i),
    ensures
        forall|j: int| s.len() - n <= j < s.len() ==> #[trigger] s[j] == 0xFF,
    decreases n,
{
    if n > 0 {
        lemma_none_below_max(s, n - 1);
        assert(!last_below_max(s, s.len() - n));
    }
}

/// Where the prefix does not end in 0xFF, as no table's does, the range from
/// it to its bound holds nothing else.
pub proof fn law_range_is_prefix(key: Seq<u8>, prefix: Seq<u8>)
    requires
        prefix.len() > 0,
        prefix.last() < 0xFF,
    ensures
        upper_bound(prefix) is Some,
        in_range(key, prefix, upper_bound(prefix).unwrap()) <==> has_prefix(key, prefix),
{
    if in_range(key, prefix, upper_bound(prefix).unwrap()) {
        lemma_between(key, prefix);
    }
    if has_prefix(key, prefix) {
        law_range_covers_prefix(key, prefix, upper_bound(prefix).unwrap());
    }
}

/// What the cells of a row hold: the index of a column and its value.
pub open spec fn cell_views(cells: Seq<(u16, Value)>) -> Seq<(u16, ValueView)> {
    cells.map_values(|c: (u16, Value)| (c.0, c.1@))
}

/// A row: the index of each column followed by its value on the wire.
pub open spec fn row_bytes(cells: Seq<(u16, ValueView)>) -> Seq<u8>
    decreases cells.len(),
{
    if cells.len() == 0 {
        Seq::empty()
    } else {
        row_bytes(cells.drop_last()) + (be16(cells.last().0) + wire(cells.last().1))
    }
}

pub fn encode_row_columns(values: &[(u16, Value)]) -> (out: Vec<u8>)
    ensures
        out@ == row_bytes(cell_views(values@)),
{
    let mut out: Vec<u8> = Vec::new();
    let ghost cells = cell_views(values@);
    let mut i: usize = 0;
    assert(cells.take(0) =~= Seq::<(u16, ValueView)>::empty());
    while i < values.len()
        invariant
            i <= values@.len(),
            cells == cell_views(values@),
            out@ == row_bytes(cells.take(i as int)),
        decreases values@.len() - i,
    {
        let ghost start = out@;
        put_u16(&mut out, values[i].0);
        values[i].1.write_wire(&mut out);
        proof {
            assert(cells.take(i + 1).drop_last() =~= cells.take(i as int));
            assert(cells[i as int] == (values@[i as int].0, values@[i as int].1@));
            assert(out@ =~= start + (be16(values@[i as int].0) + wire(values@[i as int].1@)));
        }
        i += 1;
    }
    assert(cells.take(i as int) =~= cells);
    out
}

/// One cell of a row: its column, its value, and where the cell ends.
pub open spec fn decode_cell(data: Seq<u8>, at: int, columns: Seq<ColumnView>) -> Result<
    (int, ValueView, int),
    Seq<char>,
> {
    if at + 2 > data.len() {
        Err("corrupt row value"@)
    } else {
        let idx = un_be(data.subrange(at, at + 2)) as int;
        if idx >= columns.len() {
            Err("row references unknown column index "@ + decimal(idx as nat))
        } else if at + 6 > data.len() {
            Err("corrupt row value"@)
        } else {
            let len = i32_of(data.subrange(at + 2, at + 6));
            if len == -1 {
                Ok((idx, ValueView::Null, at + 6))
            } else if len < 0 || at + 6 + len > data.len() {
                Err("corrupt row value"@)
            } else {
                match decode(data.subrange(at + 2, at + 6 + len), columns[idx].col_type) {
                    Ok(v) => Ok((idx, v, at + 6 + len)),
                    Err(e) => Err(decode_error_text(e)),
                }
            }
        }
    }
}

/// The values of a row, given those of the cells before `at`.
pub open spec fn decode_cells(
    data: Seq<u8>,
    at: int,
    columns: Seq<ColumnView>,
    values: Seq<ValueView>,
) -> Result<Seq<ValueView>, Seq<char>>
    decreases data.len() - at,
{
    if at >= data.len() {
        Ok(values)
    } else {
        match decode_cell(data, at, columns) {
            Ok((idx, v, end)) => if end > at {
                decode_cells(data, end, columns, values.update(idx, v))
            } else {
                Err("corrupt row value"@)
            },
            Err(e) => Err(e),
        }
    }
}

/// As many nulls as there are columns.
pub open spec fn nulls(n: nat) -> Seq<ValueView> {
    Seq::new(n, |i: int| ValueView::Null)
}

/// The values of a row, one for each column, null where the row has no cell.
pub open spec fn decoded_row(data: Seq<u8>, columns: Seq<ColumnView>) -> Result<
    Seq<ValueView>,
    Seq<char>,
> {
    decode_cells(data, 0, columns, nulls(columns.len()))
}

pub open spec fn row_result(r: Result<Vec<Value>, String>) -> Result<Seq<ValueView>, Seq<char>> {
    match r {
        Ok(values) => Ok(value_views(values@)),
        Err(e) => Err(e@),
    }
}

pub proof fn lemma_values_update(vs: Seq<Value>, i: int, v: Value)
    requires
        0 <= i < vs.len(),
    ensures
        value_views(vs.update(i, v)) == value_views(vs).update(i, v@),
{
    lemma_value_views(vs);
    lemma_value_views(vs.update(i, v));
    assert(value_views(vs.update(i, v)) =~= value_views(vs).update(i, v@));
}

/// A null for each of `n` columns.
pub fn null_row(n: usize) -> (r: Vec<Value>)
    ensures
        value_views(r@) == nulls(n as nat),
        r@.len() == n,
{
    let mut r: Vec<Value> = Vec::new();
    let mut i: usize = 0;
    assert(value_views(r@) =~= nulls(0));
    while i < n
        invariant
            i <= n,
            r@.len() == i,
            value_views(r@) == nulls(i as nat),
        decreases n - i,
    {
        proof {
            crate::cql_value::lemma_value_views_push(r@, Value::Null);
            assert(nulls(i as nat).push(ValueView::Null) =~= nulls((i + 1) as nat));
        }
        r.push(Value::Null);
        i += 1;
    }
    r
}

/// The values of a row, one for each column of the table.
pub fn decode_row_columns(data: &[u8], table: &TableDef) -> (r: Result<Vec<Value>, String>)
    ensures
        row_result(r) == decoded_row(data@, table@.columns),
        r matches Ok(values) ==> values@.len() == table.columns@.len(),
{
    let ghost columns = table@.columns;
    let mut out: Vec<Value> = null_row(table.columns.len());
    let mut at: usize = 0;
    while at < data.len()
        invariant
            at <= data@.len(),
            columns == table@.columns,
            out@.len() == table.columns@.len(),
            decoded_row(data@, columns) == decode_cells(
                data@,
                at as int,
                columns,
                value_views(out@),
            ),
        decreases data@.len() - at,
    {
        let ghost here = decode_cell(data@, at as int, columns);
        if data.len() - at < 2 {
            return Err("corrupt row value".to_owned());
        }
        let idx: usize = get_u16(data, at) as usize;
        if idx >= table.columns.len() {
            let mut message: String = "row references unknown column index ".to_owned();
            push_decimal(&mut message, idx as u64);
            return Err(message);
        }
        if data.len() - at < 6 {
            return Err("corrupt row value".to_owned());
        }
        let len: i32 = get_i32(data, at + 2);
        if len == -1 {
            proof {
                lemma_values_update(out@, idx as int, Value::Null);
            }
            out.set(idx, Value::Null);
            at += 6;
            continue ;
        }
        if len < 0 || data.len() - at - 6 < len as usize {
            return Err("corrupt row value".to_owned());
        }
        let end: usize = at + 6 + len as usize;
        assert(columns[idx as int] == table.columns@[idx as int]@);
        match Value::try_from_wire(&data[at + 2..end], &table.columns[idx].col_type) {
            Ok(v) => {
                proof {
                    lemma_values_update(out@, idx as int, v);
                }
                out.set(idx, v);
            },
            Err(e) => return Err(e.message()),
        }
        at = end;
    }
    Ok(out)
}

/// Whether the cells of a row name columns of a table and hold values of their
/// types, or null.
pub open spec fn cells_fit(cells: Seq<(u16, ValueView)>, columns: Seq<ColumnView>) -> bool {
    forall|i: int|
        0 <= i < cells.len() ==> {
            &&& (#[trigger] cells[i]).0 < columns.len()
            &&& cells[i].1 is Null || typed(cells[i].1, columns[cells[i].0 as int].col_type)
        }
}

/// The values of a row after its cells, taken in order.
pub open spec fn with_cells(values: Seq<ValueView>, cells: Seq<(u16, ValueView)>) -> Seq<ValueView>
    decreases cells.len(),
{
    if cells.len() == 0 {
        values
    } else {
        with_cells(values, cells.drop_last()).update(cells.last().0 as int, cells.last().1)
    }
}

proof fn lemma_row_split(cells: Seq<(u16, ValueView)>, i: int)
    requires
        0 <= i <= cells.len(),
    ensures
        row_bytes(cells) == row_bytes(cells.take(i)) + row_bytes(cells.skip(i)),
    decreases cells.len(),
{
    if i == cells.len() {
        assert(cells.take(i) =~= cells);
        assert(cells.skip(i) =~= Seq::<(u16, ValueView)>::empty());
        assert(row_bytes(cells) =~= row_bytes(cells) + Seq::<u8>::empty());
    } else {
        let init = cells.drop_last();
        lemma_row_split(init, i);
        assert(init.take(i) =~= cells.take(i));
        assert(cells.skip(i).drop_last() =~= init.skip(i));
        assert(cells.skip(i).last() == cells.last());
        assert(row_bytes(cells) =~= row_bytes(cells.take(i)) + row_bytes(cells.skip(i)));
    }
}

/// A cell in the middle of a row is read back.
proof fn lemma_cell_back(
    head: Seq<u8>,
    cell: (u16, ValueView),
    tail: Seq<u8>,
    columns: Seq<ColumnView>,
)
    requires
        cell.0 < columns.len(),
        cell.1 is Null || typed(cell.1, columns[cell.0 as int].col_type),
    ensures
        decode_cell(head + (be16(cell.0) + wire(cell.1)) + tail, head.len() as int, columns) == Ok::<
            (int, ValueView, int),
            Seq<char>,
        >((cell.0 as int, cell.1, (head.len() + 2 + wire(cell.1).len()) as int)),
{
    let data = head + (be16(cell.0) + wire(cell.1)) + tail;
    let at = head.len() as int;
    let v = cell.1;
    lemma_be16_back(cell.0);
    lemma_wire_long(v);
    assert(data.subrange(at, at + 2) =~= be16(cell.0));
    if v is Null {
        lemma_i32_back((-1) as i32);
        assert(data.subrange(at + 2, at + 6) =~= be_i32((-1) as i32));
    } else {
        crate::bytes::lemma_len_back(raw(v).len());
        assert(data.subrange(at + 2, at + 6) =~= crate::bytes::be_len(raw(v).len()));
        assert(data.subrange(at + 2, at + 6 + raw(v).len()) =~= wire(v));
        law_wire_round_trip(v, columns[cell.0 as int].col_type);
    }
}

proof fn lemma_cells_back(cells: Seq<(u16, ValueView)>, columns: Seq<ColumnView>, i: int)
    requires
        0 <= i <= cells.len(),
        cells_fit(cells, columns),
    ensures
        decode_cells(
            row_bytes(cells),
            row_bytes(cells.take(i)).len() as int,
            columns,
            with_cells(nulls(columns.len()), cells.take(i)),
        ) == Ok::<Seq<ValueView>, Seq<char>>(with_cells(nulls(columns.len()), cells)),
    decreases cells.len() - i,
{
    lemma_row_split(cells, i);
    if i == cells.len() {
        assert(cells.take(i) =~= cells);
    } else {
        lemma_cells_back(cells, columns, i + 1);
        lemma_row_split(cells, i + 1);
        assert(cells.take(i + 1).drop_last() =~= cells.take(i));
        let head = row_bytes(cells.take(i));
        let tail = row_bytes(cells.skip(i + 1));
        lemma_be16_back(cells[i].0);
        assert(cells[i].0 < columns.len());
        lemma_cell_back(head, cells[i], tail, columns);
    }
}

/// A row is read back: the cells that were written, and null elsewhere.
pub proof fn law_row_round_trip(cells: Seq<(u16, ValueView)>, columns: Seq<ColumnView>)
    requires
        cells_fit(cells, columns),
    ensures
        decoded_row(row_bytes(cells), columns) == Ok::<Seq<ValueView>, Seq<char>>(
            with_cells(nulls(columns.len()), cells),
        ),
{
    lemma_cells_back(cells, columns, 0);
    assert(cells.take(0) =~= Seq::<(u16, ValueView)>::empty());
}

} // verus!
