//! The frames that a client sends, and the load of the benchmarks.

use crate::bytes::{
    be16, be32, be64, be_i32, be_len, copy_bytes, get_u16, i32_of, lemma_be16_back, lemma_be32_back,
    lemma_i16_back, lemma_i32_back, lemma_len_back, put_bytes, put_len, put_u16, put_u32, put_u64,
    un_be,
};
use crate::expr::NamedType;
use crate::keys::part_views;
use crate::protocol::{frame_header, prepared_body};
use crate::query::first_next;
use crate::server::{
    handled_execute, heard, in_order, prepared_under, sniffed, ConnectionView, HandledView,
    HeardView, RunningView, MAX_FRAME_LENGTH,
};
use crate::wire::{
    long_string, option_in, params, query_message, read_value, read_values, short_bytes,
    short_string, startup_option, string_bytes, ParamsView,
};
use scylla_cql::frame::Compression;
use vstd::prelude::*;
use vstd::utf8::{encode_utf8, encode_utf8_decode_utf8, encode_utf8_valid_utf8};

verus! {

/// A frame that a client sends.
pub open spec fn client_frame(stream: i16, opcode: u8, body: Seq<u8>) -> Seq<u8> {
    frame_header(0x04, 0x00, stream, opcode, body.len()) + body
}

/// Appends a frame that a client sends.
pub fn frame(stream: i16, opcode: u8, body: &[u8], out: &mut Vec<u8>)
    ensures
        final(out)@ == old(out)@ + client_frame(stream, opcode, body@),
{
    let ghost start = out@;
    out.push(0x04);
    out.push(0x00);
    put_u16(out, stream as u16);
    out.push(opcode);
    put_u32(out, body.len() as u32);
    put_bytes(out, body);
    assert(out@ =~= start + client_frame(stream, opcode, body@));
}

/// A text behind its length, an int.
pub open spec fn long_string_bytes(s: Seq<char>) -> Seq<u8> {
    be_len(encode_utf8(s).len()) + encode_utf8(s)
}

/// Appends a text behind its length, an int.
pub fn write_long_string(s: &str, out: &mut Vec<u8>)
    ensures
        final(out)@ == old(out)@ + long_string_bytes(s@),
{
    let ghost start = out@;
    let bytes: &[u8] = s.as_bytes();
    put_len(out, bytes.len());
    put_bytes(out, bytes);
    assert(out@ =~= start + long_string_bytes(s@));
}

/// The body of a `STARTUP`.
pub open spec fn startup_bytes() -> Seq<u8> {
    be16(1) + string_bytes("CQL_VERSION"@) + string_bytes("3.0.0"@)
}

fn put_string(s: &str, out: &mut Vec<u8>)
    ensures
        final(out)@ == old(out)@ + string_bytes(s@),
{
    let ghost start = out@;
    let bytes: &[u8] = s.as_bytes();
    put_u16(out, bytes.len() as u16);
    put_bytes(out, bytes);
    assert(out@ =~= start + string_bytes(s@));
}

/// Appends the body of a `STARTUP`.
pub fn startup_body(out: &mut Vec<u8>)
    ensures
        final(out)@ == old(out)@ + startup_bytes(),
{
    let ghost start = out@;
    put_u16(out, 1);
    put_string("CQL_VERSION", out);
    put_string("3.0.0", out);
    assert(out@ =~= start + startup_bytes());
}

/// The body of a `QUERY` without bound values.
pub open spec fn query_bytes(cql: Seq<char>) -> Seq<u8> {
    long_string_bytes(cql) + be16(0x0001) + seq![0x00u8]
}

/// The body of a `QUERY` without bound values.
pub fn query_body(cql: &str) -> (body: Vec<u8>)
    ensures
        body@ == query_bytes(cql@),
{
    let mut body: Vec<u8> = Vec::new();
    write_long_string(cql, &mut body);
    put_u16(&mut body, 0x0001);
    body.push(0x00);
    assert(body@ =~= query_bytes(cql@));
    body
}

/// Bound values, one behind the other.
pub open spec fn values_bytes(values: Seq<Seq<u8>>) -> Seq<u8>
    decreases values.len(),
{
    if values.len() == 0 {
        Seq::empty()
    } else {
        be_len(values[0].len()) + values[0] + values_bytes(values.drop_first())
    }
}

/// The flags of parameters with bound values.
pub open spec fn value_flags(skip_metadata: bool) -> u8 {
    if skip_metadata {
        0x03
    } else {
        0x01
    }
}

/// Parameters with bound values.
pub open spec fn params_bytes(values: Seq<Seq<u8>>, skip_metadata: bool) -> Seq<u8> {
    be16(0x0001) + seq![value_flags(skip_metadata)] + be16(values.len() as u16) + values_bytes(
        values,
    )
}

proof fn lemma_values_bytes_push(values: Seq<Seq<u8>>, v: Seq<u8>)
    ensures
        values_bytes(values.push(v)) == values_bytes(values) + (be_len(v.len()) + v),
    decreases values.len(),
{
    if values.len() == 0 {
        assert(values.push(v).drop_first() =~= values);
        assert(values_bytes(values.push(v)) =~= values_bytes(values) + (be_len(v.len()) + v));
    } else {
        lemma_values_bytes_push(values.drop_first(), v);
        assert(values.push(v).drop_first() =~= values.drop_first().push(v));
        assert(values_bytes(values.push(v)) =~= values_bytes(values) + (be_len(v.len()) + v));
    }
}

/// Appends parameters with bound values.
pub fn query_params_with_values(values: &Vec<Vec<u8>>, skip_meta: bool, out: &mut Vec<u8>)
    ensures
        final(out)@ == old(out)@ + params_bytes(part_views(values@), skip_meta),
{
    let ghost start = out@;
    let ghost views = part_views(values@);
    put_u16(out, 0x0001);
    let flags: u8 = if skip_meta {
        0x03
    } else {
        0x01
    };
    out.push(flags);
    put_u16(out, values.len() as u16);
    let ghost head = out@;
    let mut i: usize = 0;
    assert(views.take(0) =~= Seq::<Seq<u8>>::empty());
    assert(head + Seq::<u8>::empty() =~= head);
    while i < values.len()
        invariant
            i <= values@.len(),
            views == part_views(values@),
            out@ == head + values_bytes(views.take(i as int)),
        decreases values@.len() - i,
    {
        let ghost before = values_bytes(views.take(i as int));
        let v: &Vec<u8> = &values[i];
        put_len(out, v.len());
        put_bytes(out, v);
        proof {
            lemma_values_bytes_push(views.take(i as int), v@);
            assert(views.take(i + 1) =~= views.take(i as int).push(v@));
            assert(out@ =~= head + (before + (be_len(v@.len()) + v@)));
        }
        i += 1;
    }
    assert(views.take(i as int) =~= views);
    assert(out@ =~= start + params_bytes(views, skip_meta));
}

/// The body of an `EXECUTE`.
pub open spec fn execute_bytes(id: Seq<u8>, values: Seq<Seq<u8>>, skip_metadata: bool) -> Seq<u8> {
    be16(id.len() as u16) + id + params_bytes(values, skip_metadata)
}

/// The body of an `EXECUTE`.
pub fn execute_body(id: &[u8], values: &Vec<Vec<u8>>, skip_meta: bool) -> (body: Vec<u8>)
    ensures
        body@ == execute_bytes(id@, part_views(values@), skip_meta),
{
    let mut body: Vec<u8> = Vec::new();
    put_u16(&mut body, id.len() as u16);
    put_bytes(&mut body, id);
    query_params_with_values(values, skip_meta, &mut body);
    assert(body@ =~= execute_bytes(id@, part_views(values@), skip_meta));
    body
}

/// The id in the answer to a `PREPARE`, if the answer is one.
pub open spec fn id_in(payload: Seq<u8>) -> Option<Seq<u8>> {
    if payload.len() < 4 || i32_of(payload.take(4)) != 4 {
        None
    } else {
        match short_bytes(payload.skip(4)) {
            Some((id, _)) => Some(id),
            None => None,
        }
    }
}

/// The id in the answer to a `PREPARE`, if the answer is one.
pub fn prepared_id(payload: &[u8]) -> (r: Option<Vec<u8>>)
    ensures
        match id_in(payload@) {
            Some(id) => r matches Some(x) && x@ == id,
            None => r is None,
        },
{
    if payload.len() < 4 || crate::bytes::get_i32(payload, 0) != 4 {
        assert(payload@.len() >= 4 ==> payload@.subrange(0, 4) =~= payload@.take(4));
        return None;
    }
    assert(payload@.subrange(0, 4) =~= payload@.take(4));
    let ghost rest = payload@.skip(4);
    if payload.len() < 6 {
        return None;
    }
    let n: usize = get_u16(payload, 4) as usize;
    assert(payload@.subrange(4, 6) =~= rest.take(2));
    if payload.len() - 6 < n {
        return None;
    }
    assert(rest.skip(2).take(n as int) =~= payload@.subrange(6, 6 + n));
    Some(copy_bytes(&payload[6..6 + n]))
}

/// What a benchmark does.
#[derive(Clone, Copy, Debug, PartialEq, Eq, Structural)]
pub enum Mode {
    Read,
    Write,
    Mixed,
}

/// The next number of a xorshift generator.
pub open spec fn next_random(x: u64) -> u64 {
    let a = x ^ (x << 13);
    let b = a ^ (a >> 7);
    b ^ (b << 17)
}

/// The next number of a xorshift generator.
pub fn xorshift(x: u64) -> (r: u64)
    ensures
        r == next_random(x),
{
    let a: u64 = x ^ (x << 13);
    let b: u64 = a ^ (a >> 7);
    b ^ (b << 17)
}

/// The seed of a connection's generator.
pub fn seed(base: u64, n: u64) -> (r: u64)
    ensures
        r == base ^ (n.wrapping_mul(0x9E37_79B9_7F4A_7C15)),
{
    base ^ n.wrapping_mul(0x9E37_79B9_7F4A_7C15)
}

/// The load of one connection.
pub struct Workload {
    pub insert_id: Vec<u8>,
    pub select_id: Vec<u8>,
    pub rng: u64,
    pub value: Vec<u8>,
    pub mode: Mode,
    pub keys: u64,
    pub filled: u64,
}

/// How many keys there are to choose from.
pub open spec fn key_count(w: Workload) -> u64 {
    if w.mode is Write {
        w.keys
    } else if w.filled == 0 {
        1
    } else {
        w.filled
    }
}

/// The key that a random number picks among `keys` keys.
pub open spec fn picked_key(random: u64, keys: u64) -> u64 {
    (1 + random % keys) as u64
}

/// Picks one of `keys` keys by a random number.
pub fn pick_key(random: u64, keys: u64) -> (k: u64)
    requires
        keys > 0,
    ensures
        k == picked_key(random, keys),
        1 <= k <= keys,
{
    1 + random % keys
}

/// The next key.
pub open spec fn next_key(w: Workload) -> u64 {
    picked_key(next_random(w.rng), key_count(w))
}

/// The body of the next operation.
pub open spec fn next_body(w: Workload, is_insert: bool) -> Seq<u8> {
    if is_insert {
        execute_bytes(w.insert_id@, seq![be64(next_key(w)), w.value@], false)
    } else {
        execute_bytes(w.select_id@, seq![be64(next_key(w))], true)
    }
}

impl Workload {
    /// Whether another load is the same but for its generator.
    pub open spec fn same_but_rng(&self, other: &Workload) -> bool {
        &&& self.insert_id == other.insert_id
        &&& self.select_id == other.select_id
        &&& self.value == other.value
        &&& self.mode == other.mode
        &&& self.keys == other.keys
        &&& self.filled == other.filled
    }

    /// The next random number.
    pub fn rand(&mut self) -> (r: u64)
        ensures
            r == next_random(old(self).rng),
            final(self).rng == r,
            final(self).same_but_rng(old(self)),
    {
        let x: u64 = xorshift(self.rng);
        self.rng = x;
        x
    }

    /// The next key: in a writing load one of all keys, else one that was
    /// filled in.
    pub fn key(&mut self) -> (k: u64)
        requires
            old(self).mode is Write ==> old(self).keys > 0,
        ensures
            k == next_key(*old(self)),
            1 <= k <= key_count(*old(self)),
            final(self).rng == next_random(old(self).rng),
            final(self).same_but_rng(old(self)),
    {
        let r: u64 = self.rand();
        let n: u64 = match self.mode {
            Mode::Write => self.keys,
            _ => if self.filled == 0 {
                1
            } else {
                self.filled
            },
        };
        pick_key(r, n)
    }

    /// Appends the frame of the next operation.
    pub fn execute_frame(&mut self, is_insert: bool, out: &mut Vec<u8>, stream: i16)
        requires
            old(self).mode is Write ==> old(self).keys > 0,
        ensures
            final(out)@ == old(out)@ + client_frame(stream, 0x0A, next_body(*old(self), is_insert)),
            final(self).rng == next_random(old(self).rng),
            final(self).same_but_rng(old(self)),
    {
        let k: u64 = self.key();
        let mut key: Vec<u8> = Vec::new();
        put_u64(&mut key, k);
        assert(key@ =~= be64(k));
        let body: Vec<u8> = if is_insert {
            let values: Vec<Vec<u8>> = vec![key, copy_bytes(&self.value)];
            assert(part_views(values@) =~= seq![be64(k), self.value@]);
            execute_body(&self.insert_id, &values, false)
        } else {
            let values: Vec<Vec<u8>> = vec![key];
            assert(part_views(values@) =~= seq![be64(k)]);
            execute_body(&self.select_id, &values, true)
        };
        frame(stream, 0x0A, &body, out);
    }
}

/// Whether the `i`-th operation of a batch is an insert.
pub open spec fn inserts(mode: Mode, i: int) -> bool {
    mode is Write || (mode is Mixed && i % 2 == 0)
}

/// Whether the `i`-th operation of a batch is an insert.
pub fn is_insert(mode: Mode, i: usize) -> (r: bool)
    ensures
        r == inserts(mode, i as int),
{
    match mode {
        Mode::Write => true,
        Mode::Read => false,
        Mode::Mixed => i % 2 == 0,
    }
}

/// The stream after another: from 0 to 32767 and round again.
pub open spec fn stream_after(stream: i16) -> i16 {
    if stream == i16::MAX {
        0
    } else {
        (stream + 1) as i16
    }
}

/// A connection of the asynchronous benchmark.
pub struct ConnCtx {
    pub load: Workload,
    pub next_stream: i16,
}

impl ConnCtx {
    /// Appends the frame of the `i`-th operation of a batch, and tells whether
    /// it is an insert.
    pub fn build_op(&mut self, i: usize, out: &mut Vec<u8>) -> (r: bool)
        requires
            old(self).load.mode is Write ==> old(self).load.keys > 0,
            0 <= old(self).next_stream,
        ensures
            r == inserts(old(self).load.mode, i as int),
            final(out)@ == old(out)@ + client_frame(
                old(self).next_stream,
                0x0A,
                next_body(old(self).load, r),
            ),
            final(self).load.rng == next_random(old(self).load.rng),
            final(self).load.same_but_rng(&old(self).load),
            final(self).next_stream == stream_after(old(self).next_stream),
            0 <= final(self).next_stream,
    {
        let insert: bool = is_insert(self.load.mode, i);
        let stream: i16 = self.next_stream;
        self.load.execute_frame(insert, out, stream);
        self.next_stream = if stream == i16::MAX {
            0
        } else {
            stream + 1
        };
        insert
    }
}

/// The server reads a text behind its length as the client wrote it.
pub proof fn law_long_string_is_read(s: Seq<char>, rest: Seq<u8>)
    requires
        encode_utf8(s).len() <= i32::MAX,
    ensures
        long_string(long_string_bytes(s) + rest) == Some((s, rest)),
{
    let bytes = encode_utf8(s);
    let b = long_string_bytes(s) + rest;
    lemma_len_back(bytes.len());
    encode_utf8_valid_utf8(s);
    encode_utf8_decode_utf8(s);
    assert(b.take(4) =~= be_len(bytes.len()));
    assert(b.skip(4) =~= bytes + rest);
    assert((bytes + rest).take(bytes.len() as int) =~= bytes);
    assert((bytes + rest).skip(bytes.len() as int) =~= rest);
}

proof fn lemma_short_string_is_read(s: Seq<char>, rest: Seq<u8>)
    requires
        encode_utf8(s).len() <= u16::MAX,
    ensures
        short_string(string_bytes(s) + rest) == Some((s, rest)),
{
    let bytes = encode_utf8(s);
    lemma_short_bytes_are_read(bytes, rest);
    encode_utf8_valid_utf8(s);
    encode_utf8_decode_utf8(s);
}

proof fn lemma_short_bytes_are_read(bytes: Seq<u8>, rest: Seq<u8>)
    requires
        bytes.len() <= u16::MAX,
    ensures
        short_bytes(be16(bytes.len() as u16) + bytes + rest) == Some((bytes, rest)),
{
    let b = be16(bytes.len() as u16) + bytes + rest;
    lemma_be16_back(bytes.len() as u16);
    assert(b.take(2) =~= be16(bytes.len() as u16));
    assert(b.skip(2) =~= bytes + rest);
    assert((bytes + rest).take(bytes.len() as int) =~= bytes);
    assert((bytes + rest).skip(bytes.len() as int) =~= rest);
}

/// Bound values that are there.
pub open spec fn present(values: Seq<Seq<u8>>) -> Seq<Option<Seq<u8>>> {
    values.map_values(|v: Seq<u8>| Some(v))
}

/// Whether bound values are few and short enough to be counted.
pub open spec fn values_fit(values: Seq<Seq<u8>>) -> bool {
    values.len() <= u16::MAX && forall|i: int|
        0 <= i < values.len() ==> (#[trigger] values[i]).len() <= i32::MAX
}

proof fn lemma_values_are_read(values: Seq<Seq<u8>>)
    requires
        values_fit(values),
    ensures
        read_values(values_bytes(values), values.len()) == Some(
            (present(values), Seq::<u8>::empty()),
        ),
    decreases values.len(),
{
    if values.len() == 0 {
        assert(present(values) =~= Seq::<Option<Seq<u8>>>::empty());
    } else {
        let v = values[0];
        let tail = values.drop_first();
        let rest = values_bytes(tail);
        assert(v.len() <= i32::MAX);
        assert forall|i: int| 0 <= i < tail.len() implies (#[trigger] tail[i]).len()
            <= i32::MAX by {
            assert(tail[i] == values[i + 1]);
        }
        lemma_values_are_read(tail);
        let b = values_bytes(values);
        lemma_len_back(v.len());
        assert(b.take(4) =~= be_len(v.len()));
        assert(b.skip(4) =~= v + rest);
        assert((v + rest).take(v.len() as int) =~= v);
        assert((v + rest).skip(v.len() as int) =~= rest);
        assert(read_value(b) == Some((Some(v), rest)));
        assert(seq![Some(v)] + present(tail) =~= present(values));
    }
}

/// The server reads parameters as the client wrote them.
pub proof fn law_params_are_read(values: Seq<Seq<u8>>, skip_metadata: bool)
    requires
        values_fit(values),
    ensures
        params(params_bytes(values, skip_metadata)) == Some(
            ParamsView { skip_metadata, values: present(values) },
        ),
{
    let b = params_bytes(values, skip_metadata);
    let flags = value_flags(skip_metadata);
    let counted = be16(values.len() as u16) + values_bytes(values);
    lemma_be16_back(0x0001);
    lemma_be16_back(values.len() as u16);
    lemma_values_are_read(values);
    assert(b.take(2) =~= be16(0x0001));
    let rest = b.skip(2);
    assert(rest =~= seq![flags] + counted);
    assert(rest.skip(1) =~= counted);
    assert(counted.take(2) =~= be16(values.len() as u16));
    assert(counted.skip(2) =~= values_bytes(values));
    lemma_value_flags();
}

proof fn lemma_value_flags()
    ensures
        forall|skip: bool| #[trigger]
            value_flags(skip) & 0x80 == 0 && value_flags(skip) & 0x40 == 0 && value_flags(skip)
                & 0x01 != 0 && (value_flags(skip) & 0x02 != 0) == skip && value_flags(skip) & 0x04
                == 0 && value_flags(skip) & 0x08 == 0 && value_flags(skip) & 0x10 == 0
                && value_flags(skip) & 0x20 == 0,
{
    assert(0x01u8 & 0x80 == 0 && 0x01u8 & 0x40 == 0 && 0x01u8 & 0x01 != 0 && 0x01u8 & 0x02 == 0
        && 0x01u8 & 0x04 == 0 && 0x01u8 & 0x08 == 0 && 0x01u8 & 0x10 == 0 && 0x01u8 & 0x20 == 0)
        by (bit_vector);
    assert(0x03u8 & 0x80 == 0 && 0x03u8 & 0x40 == 0 && 0x03u8 & 0x01 != 0 && 0x03u8 & 0x02 != 0
        && 0x03u8 & 0x04 == 0 && 0x03u8 & 0x08 == 0 && 0x03u8 & 0x10 == 0 && 0x03u8 & 0x20 == 0)
        by (bit_vector);
}

/// The server reads a query without bound values as the client wrote it.
pub proof fn law_query_is_read(cql: Seq<char>)
    requires
        encode_utf8(cql).len() <= i32::MAX,
    ensures
        query_message(query_bytes(cql)) == Some(
            (cql, ParamsView { skip_metadata: false, values: Seq::empty() }),
        ),
{
    let tail = be16(0x0001) + seq![0x00u8];
    assert(query_bytes(cql) =~= long_string_bytes(cql) + tail);
    law_long_string_is_read(cql, tail);
    lemma_be16_back(0x0001);
    assert(tail.take(2) =~= be16(0x0001));
    assert(tail.skip(2) =~= seq![0x00u8]);
    assert(0x00u8 & 0x80 == 0 && 0x00u8 & 0x40 == 0 && 0x00u8 & 0x01 == 0 && 0x00u8 & 0x02 == 0
        && 0x00u8 & 0x04 == 0 && 0x00u8 & 0x08 == 0 && 0x00u8 & 0x10 == 0 && 0x00u8 & 0x20 == 0)
        by (bit_vector);
}

/// The server awaits the body of a frame that a client sends, with the stream
/// and the opcode that the client chose.
pub proof fn law_client_frame_is_heard(
    stream: i16,
    opcode: u8,
    body: Seq<u8>,
    compression: Option<Compression>,
)
    requires
        body.len() <= MAX_FRAME_LENGTH,
    ensures
        heard(client_frame(stream, opcode, body).take(9), compression) == (HeardView::Awaits {
            compressed: false,
            stream,
            opcode,
            length: body.len(),
        }),
        client_frame(stream, opcode, body).skip(9) == body,
{
    let header = frame_header(0x04, 0x00, stream, opcode, body.len());
    let b = client_frame(stream, opcode, body);
    lemma_i16_back(stream);
    lemma_be32_back(body.len() as u32);
    assert(header.len() == 9);
    assert(b.take(9) =~= header);
    assert(b.skip(9) =~= body);
    assert(header.subrange(2, 4) =~= be16(stream as u16));
    assert(header.subrange(5, 9) =~= be32(body.len() as u32));
    assert(0x00u8 & 0x01 == 0) by (bit_vector);
}

/// The server answers the client's `STARTUP` without compression.
pub proof fn law_startup_is_read()
    ensures
        startup_option(startup_bytes(), "COMPRESSION"@) == Some(None::<Seq<char>>),
{
    reveal_strlit("CQL_VERSION");
    reveal_strlit("3.0.0");
    reveal_strlit("COMPRESSION");
    let b = startup_bytes();
    let key = string_bytes("CQL_VERSION"@);
    let val = string_bytes("3.0.0"@);
    lemma_be16_back(1);
    assert(b.take(2) =~= be16(1));
    assert(b.skip(2) =~= key + val);
    crate::protocol::lemma_short_text("CQL_VERSION"@);
    crate::protocol::lemma_short_text("3.0.0"@);
    lemma_short_string_is_read("CQL_VERSION"@, val);
    assert(val + Seq::<u8>::empty() =~= val);
    lemma_short_string_is_read("3.0.0"@, Seq::empty());
    assert("CQL_VERSION"@[1] != "COMPRESSION"@[1]);
    reveal_with_fuel(option_in, 2);
}

/// An `EXECUTE` that the client sends runs the statement that was prepared
/// under its id, with the values that the client bound.
pub proof fn law_execute_is_read(
    c: ConnectionView,
    id: Seq<u8>,
    values: Seq<Seq<u8>>,
    skip_metadata: bool,
)
    requires
        id.len() <= u16::MAX,
        values_fit(values),
        prepared_under(c, id) is Some,
        prepared_under(c, id)->Some_0.bind_types.len() == values.len(),
    ensures
        handled_execute(c, execute_bytes(id, values, skip_metadata)) == HandledView::Run(
            RunningView {
                stmt: prepared_under(c, id)->Some_0.stmt,
                values: present(values),
                next: first_next(c.keyspace, prepared_under(c, id)->Some_0.stmt),
                skip_metadata,
                sets_keyspace: false,
                compression: c.compression,
            },
        ),
{
    lemma_short_bytes_are_read(id, params_bytes(values, skip_metadata));
    law_params_are_read(values, skip_metadata);
}

/// The client finds the id of a statement in the server's answer to its
/// `PREPARE`.
pub proof fn law_prepared_id_is_read(
    id: Seq<u8>,
    keyspace: Seq<char>,
    table: Seq<char>,
    bind_specs: Seq<NamedType>,
    pk_indexes: Seq<u16>,
    result_cols: Seq<NamedType>,
)
    requires
        id.len() <= u16::MAX,
    ensures
        id_in(prepared_body(id, keyspace, table, bind_specs, pk_indexes, result_cols)) == Some(id),
{
    let b = prepared_body(id, keyspace, table, bind_specs, pk_indexes, result_cols);
    let head = be_i32(0x0004);
    let counted = be16(id.len() as u16) + id;
    lemma_i32_back(0x0004);
    lemma_be16_back(id.len() as u16);
    let tail = b.skip((4 + counted.len()) as int);
    assert(b.take(4) =~= head);
    assert(b.skip(4) =~= be16(id.len() as u16) + id + tail);
    lemma_short_bytes_are_read(id, tail);
}

/// Whether a text starts with `USE `, in upper or lower case.
pub open spec fn says_use(cql: Seq<char>) -> bool {
    &&& cql.len() >= 4
    &&& cql[0] == 'u' || cql[0] == 'U'
    &&& cql[1] == 's' || cql[1] == 'S'
    &&& cql[2] == 'e' || cql[2] == 'E'
    &&& cql[3] == ' '
}

proof fn lemma_ascii_front(s: Seq<char>)
    requires
        s.len() > 0,
        s[0] as u32 <= 0x7F,
    ensures
        encode_utf8(s) == seq![(s[0] as u32) as u8] + encode_utf8(s.drop_first()),
{
    let x = s[0] as u32;
    assert((x & 0x7F) as u8 == x as u8) by (bit_vector)
        requires
            x <= 0x7F,
    ;
}

/// A `USE` that the client sends takes effect before the next request is read.
pub proof fn law_use_runs_in_order(cql: Seq<char>)
    requires
        says_use(cql),
        encode_utf8(cql).len() <= u32::MAX,
    ensures
        in_order(0x07, query_bytes(cql)),
{
    let bytes = encode_utf8(cql);
    let b = query_bytes(cql);
    let t1 = cql.drop_first();
    let t2 = t1.drop_first();
    let t3 = t2.drop_first();
    lemma_ascii_front(cql);
    lemma_ascii_front(t1);
    lemma_ascii_front(t2);
    lemma_ascii_front(t3);
    assert(bytes[0] == (cql[0] as u32) as u8);
    assert(bytes[1] == (cql[1] as u32) as u8);
    assert(bytes[2] == (cql[2] as u32) as u8);
    assert(bytes[3] == (cql[3] as u32) as u8);
    let n = bytes.len() as i32;
    lemma_be32_back(n as u32);
    lemma_len_unsigned(bytes.len());
    assert(b.subrange(0, 4) =~= be_len(bytes.len()));
    assert(un_be(b.subrange(0, 4)) == bytes.len());
    assert(sniffed(b).len() >= 4);
    assert(sniffed(b)[0] == bytes[0]);
    assert(sniffed(b)[1] == bytes[1]);
    assert(sniffed(b)[2] == bytes[2]);
    assert(sniffed(b)[3] == bytes[3]);
}

/// A length is read back as an unsigned number.
proof fn lemma_len_unsigned(n: nat)
    requires
        n <= u32::MAX,
    ensures
        be_len(n).len() == 4,
        un_be(be_len(n)) == n,
{
    let x = n as u32;
    assert(n as i32 == x as i32);
    assert((x as i32) as u32 == x) by (bit_vector);
    lemma_be32_back(x);
}

} // verus!
