//! What the server reads in the requests of a client that follows the native
//! protocol: the text of a statement, the values bound to its markers, and the
//! options of a connection.

use crate::answers::{law_errors_are_read, lemma_frame, reads_as_items, says, Item};
use crate::bytes::{
    be, i16_of, i32_of, lemma_i16_back, lemma_i32_back, lemma_pow256, lemma_un_be_be, pow256,
    un_be,
};
use crate::layout::{
    law_numbers_are_big_endian, lemma_powers, lemma_twos_complement, spells,
};
use crate::prepare::prepared_target;
use crate::protocol::{error_body, frame_bytes};
use crate::query::first_next;
use crate::server::{
    connection_after, handled, heard, opened, prepared_under, ConnectionView, HandledView,
    HeardView, OpenedView, PreparingView, RunningView, VERSION,
};
use crate::storage::Storage;
use crate::text::lower_text;
use crate::wire::{
    after_page_size, after_paging_state, after_serial, bound_values, decompressed, long_string,
    opcode_of, option_in, params, params_tail, read_value, read_values, short_string, ParamsView,
};
use cql3_parser::cassandra_statement::CassandraStatement;
use scylla_cql::frame::request::RequestOpcode;
use scylla_cql::frame::response::ResponseOpcode;
use scylla_cql::frame::Compression;
use vstd::prelude::*;
use vstd::utf8::{decode_utf8, is_ascii_chars, is_ascii_chars_encode_utf8, valid_utf8};

verus! {

/// Bytes that spell a number are read as that number.
proof fn lemma_spelt_is_read(b: Seq<u8>, n: nat, v: int)
    requires
        spells(b, n, v),
        0 <= v < pow256(n),
    ensures
        un_be(b) == v,
{
    law_numbers_are_big_endian(v as nat, n);
    assert(b =~= be(v as nat, n));
    lemma_un_be_be(v as nat, n);
}

proof fn lemma_spelt_int_is_read(b: Seq<u8>, v: i32)
    requires
        spells(b, 4, v as int),
    ensures
        i32_of(b) == v,
{
    lemma_powers();
    lemma_twos_complement(0, 0, v, 0);
    lemma_i32_back(v);
    law_numbers_are_big_endian((v as u32) as nat, 4);
    assert(b =~= be((v as u32) as nat, 4));
}

/// Whether bytes are a value that is bound to a marker: its bytes behind their
/// number, or -1 for null, or -2 for one that is not set.
pub open spec fn is_bound_value(b: Seq<u8>, v: Option<Seq<u8>>) -> bool {
    match v {
        None => spells(b, 4, -1) || spells(b, 4, -2),
        Some(x) => b.len() >= 4 && spells(b.take(4), 4, x.len() as int) && b.skip(4) == x && x.len()
            <= i32::MAX,
    }
}

/// Whether parts of a body are the values that are bound to the markers.
pub open spec fn are_bound_values(parts: Seq<Seq<u8>>, values: Seq<Option<Seq<u8>>>) -> bool {
    parts.len() == values.len() && forall|i: int|
        0 <= i < parts.len() ==> is_bound_value(#[trigger] parts[i], values[i])
}

proof fn lemma_value_is_read(b: Seq<u8>, v: Option<Seq<u8>>, rest: Seq<u8>)
    requires
        is_bound_value(b, v),
    ensures
        read_value(b + rest) == Some((v, rest)),
{
    let all = b + rest;
    match v {
        None => {
            assert(all.take(4) =~= b);
            assert(all.skip(4) =~= rest);
            if spells(b, 4, -1) {
                lemma_spelt_int_is_read(b, (-1) as i32);
            } else {
                lemma_spelt_int_is_read(b, (-2) as i32);
            }
        },
        Some(x) => {
            assert(all.take(4) =~= b.take(4));
            lemma_spelt_int_is_read(b.take(4), x.len() as i32);
            assert(all.skip(4) =~= x + rest);
            assert((x + rest).take(x.len() as int) =~= x);
            assert((x + rest).skip(x.len() as int) =~= rest);
        },
    }
}

proof fn lemma_bound_values_are_read(
    parts: Seq<Seq<u8>>,
    values: Seq<Option<Seq<u8>>>,
    rest: Seq<u8>,
)
    requires
        are_bound_values(parts, values),
    ensures
        read_values(parts.flatten() + rest, values.len()) == Some((values, rest)),
    decreases parts.len(),
{
    if parts.len() == 0 {
        assert(parts.flatten() + rest =~= rest);
        assert(values =~= Seq::empty());
    } else {
        let tail = parts.drop_first();
        let others = values.drop_first();
        assert(is_bound_value(parts[0], values[0]));
        assert forall|i: int| 0 <= i < tail.len() implies is_bound_value(
            #[trigger] tail[i],
            others[i],
        ) by {
            assert(is_bound_value(parts[i + 1], values[i + 1]));
        }
        lemma_bound_values_are_read(tail, others, rest);
        lemma_value_is_read(parts[0], values[0], tail.flatten() + rest);
        assert(parts.flatten() + rest =~= parts[0] + (tail.flatten() + rest));
        assert(seq![values[0]] + others =~= values);
    }
}

/// What a client can say beside a statement. A field that is not there is not
/// written.
pub struct Parameters {
    /// The bytes of the consistency level, and the level.
    pub consistency: (Seq<u8>, int),
    /// Whether the client can do without metadata.
    pub skip_metadata: bool,
    /// The bytes of the number of bound values, the parts that are values, and
    /// the values.
    pub bound: Option<(Seq<u8>, Seq<Seq<u8>>, Seq<Option<Seq<u8>>>)>,
    /// The bytes of the size of a page.
    pub page_size: Option<Seq<u8>>,
    /// The bytes of the length of a paging state, and the state.
    pub paging_state: Option<(Seq<u8>, Seq<u8>)>,
    /// The bytes of the serial consistency level, and the level.
    pub serial: Option<(Seq<u8>, int)>,
    /// The bytes of a timestamp.
    pub timestamp: Option<Seq<u8>>,
}

/// Whether the parts of parameters are as the protocol has them.
pub open spec fn are_parameters(p: Parameters) -> bool {
    &&& spells(p.consistency.0, 2, p.consistency.1)
    &&& 0 <= p.consistency.1 <= 10
    &&& p.bound matches Some((count, parts, values)) ==> spells(count, 2, values.len() as int)
        && values.len() <= u16::MAX && are_bound_values(parts, values)
    &&& p.page_size matches Some(size) ==> size.len() == 4
    &&& p.paging_state matches Some((count, state)) ==> spells(count, 4, state.len() as int)
        && state.len() <= i32::MAX
    &&& p.serial matches Some((bytes, level)) ==> spells(bytes, 2, level) && (level == 8 || level
        == 9)
    &&& p.timestamp matches Some(stamp) ==> stamp.len() == 8
}

/// The flags of parameters: a bit for each thing that they say.
pub open spec fn flags_of(p: Parameters) -> int {
    (if p.bound is Some {
        1int
    } else {
        0
    }) + (if p.skip_metadata {
        2int
    } else {
        0
    }) + (if p.page_size is Some {
        4int
    } else {
        0
    }) + (if p.paging_state is Some {
        8int
    } else {
        0
    }) + (if p.serial is Some {
        16int
    } else {
        0
    }) + (if p.timestamp is Some {
        32int
    } else {
        0
    })
}

/// The bytes of what parameters say about pages, the serial level and the time.
pub open spec fn tail_of(p: Parameters) -> Seq<u8> {
    (match p.page_size {
        Some(size) => size,
        None => Seq::empty(),
    }) + ((match p.paging_state {
        Some((count, state)) => count + state,
        None => Seq::empty(),
    }) + ((match p.serial {
        Some((bytes, _)) => bytes,
        None => Seq::empty(),
    }) + (match p.timestamp {
        Some(stamp) => stamp,
        None => Seq::empty(),
    })))
}

/// The bytes of parameters.
pub open spec fn parameter_bytes(p: Parameters) -> Seq<u8> {
    p.consistency.0 + (seq![flags_of(p) as u8] + ((match p.bound {
        Some((count, parts, _)) => count + parts.flatten(),
        None => Seq::empty(),
    }) + tail_of(p)))
}

/// The values that parameters bind to the markers.
pub open spec fn values_of(p: Parameters) -> Seq<Option<Seq<u8>>> {
    match p.bound {
        Some((_, _, values)) => values,
        None => Seq::empty(),
    }
}

proof fn lemma_flags(flags: u8, a: bool, b: bool, c: bool, d: bool, e: bool, f: bool)
    requires
        flags == (if a {
            1int
        } else {
            0
        }) + (if b {
            2int
        } else {
            0
        }) + (if c {
            4int
        } else {
            0
        }) + (if d {
            8int
        } else {
            0
        }) + (if e {
            16int
        } else {
            0
        }) + (if f {
            32int
        } else {
            0
        }),
    ensures
        flags & 0x01 != 0 <==> a,
        flags & 0x02 != 0 <==> b,
        flags & 0x04 != 0 <==> c,
        flags & 0x08 != 0 <==> d,
        flags & 0x10 != 0 <==> e,
        flags & 0x20 != 0 <==> f,
        flags & 0x40 == 0,
        flags & 0x80 == 0,
{
    assert(flags < 64);
    assert(flags < 64 ==> flags & 0x40 == 0 && flags & 0x80 == 0 && (flags & 0x01 != 0 <==> flags
        % 2 == 1) && (flags & 0x02 != 0 <==> (flags / 2) % 2 == 1) && (flags & 0x04 != 0 <==> (flags
        / 4) % 2 == 1) && (flags & 0x08 != 0 <==> (flags / 8) % 2 == 1) && (flags & 0x10 != 0 <==> (
    flags / 16) % 2 == 1) && (flags & 0x20 != 0 <==> (flags / 32) % 2 == 1)) by (bit_vector);
}

proof fn lemma_tail_is_read(p: Parameters, flags: u8)
    requires
        are_parameters(p),
        flags & 0x04 != 0 <==> p.page_size is Some,
        flags & 0x08 != 0 <==> p.paging_state is Some,
        flags & 0x10 != 0 <==> p.serial is Some,
        flags & 0x20 != 0 <==> p.timestamp is Some,
    ensures
        params_tail(flags, tail_of(p)),
{
    lemma_pow256();
    let stamp = match p.timestamp {
        Some(stamp) => stamp,
        None => Seq::empty(),
    };
    let serial = match p.serial {
        Some((bytes, _)) => bytes,
        None => Seq::empty(),
    };
    let state = match p.paging_state {
        Some((count, state)) => count + state,
        None => Seq::empty(),
    };
    let size = match p.page_size {
        Some(size) => size,
        None => Seq::empty(),
    };
    let t3 = stamp;
    let t2 = serial + t3;
    let t1 = state + t2;
    let t0 = size + t1;
    assert(after_page_size(flags, t0) == Some(t1)) by {
        if p.page_size is Some {
            assert(t0.skip(4) =~= t1);
        } else {
            assert(t0 =~= t1);
        }
    }
    assert(after_paging_state(flags, t1) == Some(t2)) by {
        if let Some((count, s)) = p.paging_state {
            assert(t1.take(4) =~= count);
            assert(t1.skip(4) =~= s + t2);
            lemma_spelt_int_is_read(count, s.len() as i32);
            assert((s + t2).skip(s.len() as int) =~= t2);
        } else {
            assert(t1 =~= t2);
        }
    }
    assert(after_serial(flags, t2) == Some(t3)) by {
        if let Some((bytes, level)) = p.serial {
            assert(t2.take(2) =~= bytes);
            assert(t2.skip(2) =~= t3);
            lemma_spelt_is_read(bytes, 2, level);
        } else {
            assert(t2 =~= t3);
        }
    }
}

/// The server reads in parameters the bound values, in their order, and whether
/// the client can do without metadata, whatever else the client says.
pub proof fn law_parameters_are_read(p: Parameters)
    requires
        are_parameters(p),
    ensures
        params(parameter_bytes(p)) == Some(
            ParamsView { skip_metadata: p.skip_metadata, values: values_of(p) },
        ),
{
    let b = parameter_bytes(p);
    let flags = flags_of(p) as u8;
    let tail = tail_of(p);
    let bound = match p.bound {
        Some((count, parts, _)) => count + parts.flatten(),
        None => Seq::empty(),
    };
    lemma_pow256();
    lemma_flags(
        flags,
        p.bound is Some,
        p.skip_metadata,
        p.page_size is Some,
        p.paging_state is Some,
        p.serial is Some,
        p.timestamp is Some,
    );
    lemma_tail_is_read(p, flags);
    lemma_spelt_is_read(p.consistency.0, 2, p.consistency.1);
    assert(b.take(2) =~= p.consistency.0);
    let rest = b.skip(2);
    assert(rest =~= seq![flags] + (bound + tail));
    assert(rest.skip(1) =~= bound + tail);
    assert(bound_values(flags, bound + tail) == Some((values_of(p), tail))) by {
        if let Some((count, parts, values)) = p.bound {
            lemma_spelt_is_read(count, 2, values.len() as int);
            assert((bound + tail).take(2) =~= count);
            assert((bound + tail).skip(2) =~= parts.flatten() + tail);
            lemma_bound_values_are_read(parts, values, tail);
        } else {
            assert(bound + tail =~= tail);
        }
    }
}

/// Whether bytes are a text behind its length in four bytes.
pub open spec fn is_long_text(b: Seq<u8>, text: Seq<char>) -> bool {
    &&& 4 <= b.len() <= i32::MAX
    &&& spells(b.take(4), 4, b.len() - 4)
    &&& valid_utf8(b.skip(4))
    &&& decode_utf8(b.skip(4)) == text
}

/// Whether bytes are a text behind its length in two bytes.
pub open spec fn is_short_text(b: Seq<u8>, text: Seq<char>) -> bool {
    &&& 2 <= b.len() <= u16::MAX
    &&& spells(b.take(2), 2, b.len() - 2)
    &&& valid_utf8(b.skip(2))
    &&& decode_utf8(b.skip(2)) == text
}

proof fn lemma_long_text_is_read(b: Seq<u8>, text: Seq<char>, rest: Seq<u8>)
    requires
        is_long_text(b, text),
    ensures
        long_string(b + rest) == Some((text, rest)),
{
    let all = b + rest;
    let raw = b.skip(4);
    lemma_spelt_int_is_read(b.take(4), (b.len() - 4) as i32);
    assert(all.take(4) =~= b.take(4));
    assert(all.skip(4) =~= raw + rest);
    assert((raw + rest).take(raw.len() as int) =~= raw);
    assert((raw + rest).skip(raw.len() as int) =~= rest);
}

proof fn lemma_short_text_is_read(b: Seq<u8>, text: Seq<char>, rest: Seq<u8>)
    requires
        is_short_text(b, text),
    ensures
        short_string(b + rest) == Some((text, rest)),
{
    let all = b + rest;
    let raw = b.skip(2);
    lemma_pow256();
    lemma_spelt_is_read(b.take(2), 2, b.len() - 2);
    assert(all.take(2) =~= b.take(2));
    assert(all.skip(2) =~= raw + rest);
    assert((raw + rest).take(raw.len() as int) =~= raw);
    assert((raw + rest).skip(raw.len() as int) =~= rest);
}

/// A `QUERY` runs the statement that its text is, with the values that it binds,
/// in the keyspace of the session; a `USE` in it moves the session.
pub proof fn law_queries_are_run(
    storage: Storage,
    c: ConnectionView,
    written: Seq<u8>,
    text: Seq<char>,
    p: Parameters,
    stmt: CassandraStatement,
    stream: i16,
    may_skip: bool,
)
    requires
        is_long_text(written, text),
        are_parameters(p),
        storage.statement(text) == Some(stmt),
    ensures
        handled(storage, c, 0x07, written + parameter_bytes(p), stream, may_skip)
            == HandledView::Run(
            RunningView {
                stmt,
                values: values_of(p),
                next: first_next(c.keyspace, stmt),
                skip_metadata: may_skip && p.skip_metadata,
                sets_keyspace: true,
                compression: c.compression,
            },
        ),
        connection_after(c, 0x07, written + parameter_bytes(p)) == c,
{
    lemma_long_text_is_read(written, text, parameter_bytes(p));
    law_parameters_are_read(p);
}

/// A `PREPARE` is about the statement that its text is and about the table that
/// the statement names.
pub proof fn law_prepares_are_run(
    storage: Storage,
    c: ConnectionView,
    written: Seq<u8>,
    text: Seq<char>,
    stmt: CassandraStatement,
    stream: i16,
    may_skip: bool,
)
    requires
        is_long_text(written, text),
        storage.statement(text) == Some(stmt),
        prepared_target(c.keyspace, stmt) is Ok,
    ensures
        handled(storage, c, 0x09, written, stream, may_skip) == HandledView::Prepare(
            PreparingView {
                stmt,
                keyspace: prepared_target(c.keyspace, stmt)->Ok_0.0,
                table: prepared_target(c.keyspace, stmt)->Ok_0.1,
                compression: c.compression,
            },
        ),
        connection_after(c, 0x09, written) == c,
{
    lemma_long_text_is_read(written, text, Seq::empty());
    assert(written + Seq::<u8>::empty() =~= written);
}

/// An `EXECUTE` runs the statement that was prepared under its id, with the values
/// that it binds, if they are as many as the statement has markers. It leaves the
/// keyspace of the session alone.
pub proof fn law_executes_are_run(
    storage: Storage,
    c: ConnectionView,
    count: Seq<u8>,
    id: Seq<u8>,
    p: Parameters,
    stream: i16,
    may_skip: bool,
)
    requires
        spells(count, 2, id.len() as int),
        id.len() <= u16::MAX,
        are_parameters(p),
        prepared_under(c, id) is Some,
    ensures
        ({
            let held = prepared_under(c, id)->Some_0;
            let out = handled(
                storage,
                c,
                0x0A,
                count + id + parameter_bytes(p),
                stream,
                may_skip,
            );
            if held.bind_types.len() == values_of(p).len() {
                out == HandledView::Run(
                    RunningView {
                        stmt: held.stmt,
                        values: values_of(p),
                        next: first_next(c.keyspace, held.stmt),
                        skip_metadata: p.skip_metadata,
                        sets_keyspace: false,
                        compression: c.compression,
                    },
                )
            } else {
                out is Error
            }
        }),
        connection_after(c, 0x0A, count + id + parameter_bytes(p)) == c,
{
    let b = count + id + parameter_bytes(p);
    lemma_pow256();
    lemma_spelt_is_read(count, 2, id.len() as int);
    law_parameters_are_read(p);
    assert(b.take(2) =~= count);
    assert(b.skip(2) =~= id + parameter_bytes(p));
    assert((id + parameter_bytes(p)).take(id.len() as int) =~= id);
    assert((id + parameter_bytes(p)).skip(id.len() as int) =~= parameter_bytes(p));
}

/// Whether parts of a body are the names and values of options, each name before
/// its value.
pub open spec fn are_options(parts: Seq<Seq<u8>>, options: Seq<(Seq<char>, Seq<char>)>) -> bool {
    parts.len() == 2 * options.len() && forall|i: int|
        0 <= i < options.len() ==> is_short_text(parts[2 * i], (#[trigger] options[i]).0)
            && is_short_text(parts[2 * i + 1], options[i].1)
}

/// Whether the last of the options under a name has that value; there may be none.
pub open spec fn is_last_option(
    options: Seq<(Seq<char>, Seq<char>)>,
    name: Seq<char>,
    value: Option<Seq<char>>,
) -> bool {
    match value {
        None => forall|i: int| 0 <= i < options.len() ==> (#[trigger] options[i]).0 != name,
        Some(v) => exists|i: int|
            0 <= i < options.len() && #[trigger] options[i] == (name, v) && forall|j: int|
                i < j < options.len() ==> (#[trigger] options[j]).0 != name,
    }
}

proof fn lemma_options_are_read(
    parts: Seq<Seq<u8>>,
    options: Seq<(Seq<char>, Seq<char>)>,
    name: Seq<char>,
    held: Option<Seq<char>>,
    value: Option<Seq<char>>,
)
    requires
        are_options(parts, options),
        is_last_option(options, name, value),
    ensures
        option_in(parts.flatten(), options.len(), name, held) == Some(
            if value is Some {
                value
            } else {
                held
            },
        ),
    decreases options.len(),
{
    if options.len() > 0 {
        let tail = parts.drop_first().drop_first();
        let others = options.drop_first();
        assert(options[0] == (options[0].0, options[0].1));
        assert(is_short_text(parts[0], options[0].0) && is_short_text(parts[1], options[0].1));
        assert forall|i: int| 0 <= i < others.len() implies is_short_text(
            tail[2 * i],
            (#[trigger] others[i]).0,
        ) && is_short_text(tail[2 * i + 1], others[i].1) by {
            assert(others[i] == options[i + 1]);
            assert(tail[2 * i] == parts[2 * (i + 1)]);
            assert(tail[2 * i + 1] == parts[2 * (i + 1) + 1]);
        }
        let rest = tail.flatten();
        assert(parts.drop_first()[0] == parts[1]);
        assert(parts.drop_first().flatten() == parts[1] + rest);
        assert(parts.flatten() == parts[0] + (parts[1] + rest));
        lemma_short_text_is_read(parts[0], options[0].0, parts[1] + rest);
        lemma_short_text_is_read(parts[1], options[0].1, rest);
        let next = if options[0].0 == name {
            Some(options[0].1)
        } else {
            held
        };
        match value {
            None => {
                assert forall|i: int| 0 <= i < others.len() implies (#[trigger] others[i]).0
                    != name by {
                    assert(others[i] == options[i + 1]);
                }
                assert(options[0].0 != name);
                lemma_options_are_read(tail, others, name, next, None);
            },
            Some(v) => {
                let i = choose|i: int|
                    0 <= i < options.len() && #[trigger] options[i] == (name, v) && forall|j: int|
                        i < j < options.len() ==> (#[trigger] options[j]).0 != name;
                assert forall|j: int| i - 1 < j < others.len() && 0 <= j implies (
                #[trigger] others[j]).0 != name by {
                    assert(others[j] == options[j + 1]);
                }
                if i == 0 {
                    lemma_options_are_read(tail, others, name, next, None);
                } else {
                    assert(others[i - 1] == (name, v));
                    lemma_options_are_read(tail, others, name, next, value);
                }
            },
        }
    }
}

/// A connection compresses what it sends as the last `COMPRESSION` option of its
/// `STARTUP` says, in upper or lower case, and as before where there is none; it
/// answers that it is ready. With another algorithm the request is refused and
/// nothing changes.
pub proof fn law_startup_chooses_compression(
    storage: Storage,
    c: ConnectionView,
    count: Seq<u8>,
    parts: Seq<Seq<u8>>,
    options: Seq<(Seq<char>, Seq<char>)>,
    value: Option<Seq<char>>,
    stream: i16,
    may_skip: bool,
)
    requires
        spells(count, 2, options.len() as int),
        options.len() <= u16::MAX,
        are_options(parts, options),
        is_last_option(options, "COMPRESSION"@, value),
    ensures
        ({
            let out = handled(storage, c, 0x01, count + parts.flatten(), stream, may_skip);
            let after = connection_after(c, 0x01, count + parts.flatten());
            let chosen = match value {
                None => Some(c.compression),
                Some(v) => if lower_text(v) == "lz4"@ {
                    Some(Some(Compression::Lz4))
                } else if lower_text(v) == "snappy"@ {
                    Some(Some(Compression::Snappy))
                } else {
                    None
                },
            };
            &&& after.keyspace == c.keyspace
            &&& after.prepared == c.prepared
            &&& after.next_prepared_id == c.next_prepared_id
            &&& match chosen {
                Some(compression) => after.compression == compression && out
                    == HandledView::Answer(
                    frame_bytes(VERSION, stream, ResponseOpcode::Ready, Seq::empty(), compression),
                ),
                None => after == c && out is Error,
            }
        }),
{
    let b = count + parts.flatten();
    lemma_pow256();
    lemma_spelt_is_read(count, 2, options.len() as int);
    assert(b.take(2) =~= count);
    assert(b.skip(2) =~= parts.flatten());
    lemma_options_are_read(parts, options, "COMPRESSION"@, None, value);
}

/// The server awaits the body of every request of version 4 that is not too long,
/// with the stream, the opcode and the length of its header, and the mark of a
/// compressed body. Any other header is refused with a protocol error.
pub proof fn law_headers_are_heard(
    header: Seq<u8>,
    stream: i16,
    length: int,
    compression: Option<Compression>,
)
    requires
        header.len() == 9,
        spells(header.subrange(2, 4), 2, stream as int),
        spells(header.subrange(5, 9), 4, length),
        0 <= length < 0x1_0000_0000,
    ensures
        ({
            let out = heard(header, compression);
            &&& header[0] == 4 && length <= 64 * 1024 * 1024 ==> out == (HeardView::Awaits {
                compressed: header[1] % 2 == 1,
                stream,
                opcode: header[4],
                length: length as nat,
            })
            &&& header[0] != 4 || length > 64 * 1024 * 1024 ==> out is Refused
            &&& header[0] == 4 && length > 64 * 1024 * 1024 && out->Refused_0.len() <= u32::MAX
                ==> says(
                out->Refused_0,
                stream,
                0x00,
                compression,
                seq![Item::Int(0x000A), Item::Text("Frame too large"@)],
            )
        }),
{
    lemma_pow256();
    lemma_spelt_is_read(header.subrange(5, 9), 4, length);
    lemma_spelt_short_is_read(header.subrange(2, 4), stream);
    let flags = header[1];
    assert(flags & 0x01 != 0 <==> flags % 2 == 1) by (bit_vector);
    reveal_strlit("Frame too large");
    let message = "Frame too large"@;
    assert(is_ascii_chars(message));
    is_ascii_chars_encode_utf8(message);
    law_errors_are_read(0x000A, message);
    if header[0] == 4 && length > 64 * 1024 * 1024 {
        let body = error_body(0x000A, message);
        if let HeardView::Refused(b) = heard(header, compression) {
            if b.len() <= u32::MAX {
                lemma_frame(stream, ResponseOpcode::Error, body, compression);
                assert(reads_as_items(
                    body,
                    seq![Item::Int(0x000A), Item::Text("Frame too large"@)],
                ));
            }
        }
    }
}

proof fn lemma_spelt_short_is_read(b: Seq<u8>, v: i16)
    requires
        spells(b, 2, v as int),
    ensures
        i16_of(b) == v,
{
    lemma_powers();
    lemma_twos_complement(0, v, 0, 0);
    lemma_i16_back(v);
    law_numbers_are_big_endian((v as u16) as nat, 2);
    assert(b =~= be((v as u16) as nat, 2));
}

/// A request whose text is cut short or is no UTF-8, whose consistency level is
/// none of the protocol's, or whose flags are not all known is refused as a
/// violation of the protocol.
pub proof fn law_malformed_queries_are_refused(
    storage: Storage,
    c: ConnectionView,
    count: Seq<u8>,
    said: i32,
    text: Seq<u8>,
    level: Seq<u8>,
    code: int,
    flags: u8,
    rest: Seq<u8>,
    stream: i16,
    may_skip: bool,
)
    requires
        spells(count, 4, said as int),
        spells(level, 2, code),
        0 <= code <= u16::MAX,
        said < 0 || said > text.len() || said == text.len(),
        said == text.len() ==> !valid_utf8(text) || code > 10 || flags >= 64,
        said > text.len() ==> rest.len() == 0 && text.len() + 3 < said,
    ensures
        ({
            let body = count + text + level + seq![flags] + rest;
            &&& handled(storage, c, 0x07, body, stream, may_skip) matches HandledView::Error(e)
                && e.code == 0x000A
            &&& !(said == text.len() && valid_utf8(text)) ==> (handled(
                storage,
                c,
                0x09,
                body,
                stream,
                may_skip,
            ) matches HandledView::Error(e) && e.code == 0x000A)
        }),
{
    let tail = level + seq![flags] + rest;
    let body = count + text + level + seq![flags] + rest;
    lemma_pow256();
    lemma_spelt_int_is_read(count, said);
    assert(body.take(4) =~= count);
    assert(body.skip(4) =~= text + tail);
    if said == text.len() {
        assert((text + tail).take(text.len() as int) =~= text);
        assert((text + tail).skip(text.len() as int) =~= tail);
        if valid_utf8(text) {
            lemma_spelt_is_read(level, 2, code);
            assert(tail.take(2) =~= level);
            assert(tail.skip(2) =~= seq![flags] + rest);
            assert(flags >= 64 ==> flags & 0x40 != 0 || flags & 0x80 != 0) by (bit_vector);
        }
    }
}

/// The body of a request is what was sent or, where the header says so, what was
/// compressed by the algorithm of the connection. Without one such a request is
/// refused.
pub proof fn law_bodies_are_opened(
    stream: i16,
    sent: Seq<u8>,
    body: Seq<u8>,
    algorithm: Compression,
    compression: Option<Compression>,
)
    requires
        decompressed(sent, algorithm) == Some(body),
    ensures
        opened(false, stream, sent, compression) == OpenedView::Body(sent),
        opened(true, stream, sent, Some(algorithm)) == OpenedView::Body(body),
        opened(true, stream, sent, None) is Refused,
{
}

/// The name under which the native protocol lists the opcode of a request.
pub open spec fn is_request(opcode: int, r: RequestOpcode) -> bool {
    match r {
        RequestOpcode::Startup => opcode == 0x01,
        RequestOpcode::Options => opcode == 0x05,
        RequestOpcode::Query => opcode == 0x07,
        RequestOpcode::Prepare => opcode == 0x09,
        RequestOpcode::Execute => opcode == 0x0A,
        RequestOpcode::Register => opcode == 0x0B,
        RequestOpcode::Batch => opcode == 0x0D,
        RequestOpcode::AuthResponse => opcode == 0x0F,
    }
}

/// The opcodes of requests are those that the protocol lists, and no others.
pub proof fn law_opcodes_are_listed(opcode: u8, r: RequestOpcode)
    ensures
        opcode_of(opcode) == Some(r) <==> is_request(opcode as int, r),
{
}

/// Requests that the server does not carry out are refused; one for events is
/// answered that the server is ready.
pub proof fn law_other_requests_are_answered(
    storage: Storage,
    c: ConnectionView,
    opcode: u8,
    body: Seq<u8>,
    stream: i16,
    may_skip: bool,
)
    ensures
        opcode == 0x0D || opcode == 0x0F ==> handled(storage, c, opcode, body, stream, may_skip)
            is Error,
        opcode == 0x00 || opcode == 0x02 || opcode == 0x03 || opcode == 0x04 || opcode == 0x06
            || opcode == 0x08 || opcode == 0x0C || opcode == 0x0E || opcode >= 0x10 ==> handled(
            storage,
            c,
            opcode,
            body,
            stream,
            may_skip,
        ) is Error,
        opcode == 0x0B ==> handled(storage, c, opcode, body, stream, may_skip)
            == HandledView::Answer(
            frame_bytes(VERSION, stream, ResponseOpcode::Ready, Seq::empty(), c.compression),
        ),
        opcode != 0x01 ==> connection_after(c, opcode, body) == c,
{
}

} // verus!
