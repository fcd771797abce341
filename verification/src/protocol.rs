//! The responses of the server, as bytes.

use crate::bytes::{
    be16, be32, be_i32, be_len, copy_bytes, lemma_be16_back, lemma_be32_back, lemma_i32_back,
    put_bytes, put_i32, put_len, put_u16, put_u32,
};
use crate::cql_value::{lemma_value_views, value_views, wire, wire_all, Value, ValueView};
use crate::expr::{named_types, NamedType};
use crate::schema::{wire_type, ColumnType};
use crate::select::row_views;
use crate::text::texts;
use crate::wire::{
    compress, compressed, compressible, decompressed, fits_short, is_multimap, multimap_of,
    option_views, options_bytes, options_fit, response_byte, response_code, string_bytes,
    strings_bytes, write_short_bytes, write_string, OptionView,
};
use scylla_cql::frame::Compression;
use scylla_cql::frame::response::ResponseOpcode;
use vstd::prelude::*;
use vstd::utf8::encode_utf8;

verus! {

/// A body as it is sent: compressed, if that was agreed on.
pub open spec fn payload(body: Seq<u8>, compression: Option<Compression>) -> Seq<u8> {
    match compression {
        Some(algorithm) => compressed(body, algorithm),
        None => body,
    }
}

/// The header of a frame: version, flags, stream, opcode, and the length of
/// what follows.
pub open spec fn frame_header(version: u8, flags: u8, stream: i16, opcode: u8, length: nat) -> Seq<
    u8,
> {
    seq![version, flags] + be16(stream as u16) + seq![opcode] + be32(length as u32)
}

/// A frame that the server sends.
pub open spec fn frame_bytes(
    version: u8,
    stream: i16,
    opcode: ResponseOpcode,
    body: Seq<u8>,
    compression: Option<Compression>,
) -> Seq<u8> {
    let sent = payload(body, compression);
    let flags: u8 = if compression is Some {
        0x01
    } else {
        0x00
    };
    frame_header(version | 0x80, flags, stream, response_code(opcode), sent.len()) + sent
}

/// Whether a body of `n` bytes can be sent.
pub open spec fn sendable(n: nat, compression: Option<Compression>) -> bool {
    match compression {
        Some(algorithm) => compressible(n, algorithm),
        None => true,
    }
}

/// A frame that the server sends. The receiver makes the body of what follows
/// its header again.
pub fn response_frame(
    version: u8,
    stream: i16,
    opcode: ResponseOpcode,
    body: &[u8],
    compression: Option<Compression>,
) -> (out: Vec<u8>)
    requires
        sendable(body@.len(), compression),
    ensures
        out@ == frame_bytes(version, stream, opcode, body@, compression),
        compression matches Some(algorithm) ==> body@.len() <= u32::MAX ==> decompressed(
            out@.skip(9),
            algorithm,
        ) == Some(body@),
{
    let mut flags: u8 = 0;
    let sent: Vec<u8> = match compression {
        Some(algorithm) => {
            flags = 0x01;
            match compress(body, algorithm) {
                Some(sent) => sent,
                None => Vec::new(),
            }
        },
        None => copy_bytes(body),
    };
    let mut out: Vec<u8> = vec![version | 0x80, flags];
    put_u16(&mut out, stream as u16);
    out.push(response_byte(opcode));
    put_u32(&mut out, sent.len() as u32);
    assert(out@ =~= frame_header(version | 0x80, flags, stream, response_code(opcode), sent@.len()));
    proof {
        lemma_be16_back(stream as u16);
        lemma_be32_back(sent@.len() as u32);
    }
    put_bytes(&mut out, &sent);
    assert(out@.skip(9) =~= sent@);
    out
}

/// The answer to a `STARTUP` or a `REGISTER`.
pub fn ready(version: u8, stream: i16, compression: Option<Compression>) -> (out: Vec<u8>)
    ensures
        out@ == frame_bytes(version, stream, ResponseOpcode::Ready, Seq::empty(), compression),
{
    let body: Vec<u8> = Vec::new();
    assert(body@ =~= Seq::<u8>::empty());
    response_frame(version, stream, ResponseOpcode::Ready, &body, compression)
}

/// What the server supports.
pub open spec fn server_options() -> Seq<OptionView> {
    seq![
        ("CQL_VERSION"@, seq!["3.4.5"@]),
        ("COMPRESSION"@, seq!["lz4"@, "snappy"@]),
        ("PROTOCOL_VERSIONS"@, seq!["4"@]),
    ]
}

proof fn lemma_server_options_fit()
    ensures
        options_fit(server_options()),
{
    reveal_strlit("CQL_VERSION");
    reveal_strlit("COMPRESSION");
    reveal_strlit("PROTOCOL_VERSIONS");
    reveal_strlit("3.4.5");
    reveal_strlit("lz4");
    reveal_strlit("snappy");
    reveal_strlit("4");
    let options = server_options();
    assert forall|i: int| 0 <= i < options.len() implies fits_short((#[trigger] options[i]).0)
        && options[i].1.len() <= u16::MAX by {
        lemma_short_text(options[i].0);
    }
    assert forall|i: int, j: int|
        0 <= i < options.len() && 0 <= j < options[i].1.len() implies fits_short(
        #[trigger] options[i].1[j],
    ) by {
        lemma_short_text(options[i].1[j]);
    }
    assert forall|i: int, j: int| 0 <= i < j < options.len() implies (#[trigger] options[i]).0 != (
    #[trigger] options[j]).0 by {
        assert(options[i].0.len() != options[j].0.len() || options[i].0[1] != options[j].0[1]);
    }
}

/// A character takes at most four bytes.
proof fn lemma_utf8_bound(s: Seq<char>)
    ensures
        encode_utf8(s).len() <= 4 * s.len(),
    decreases s.len(),
{
    reveal_with_fuel(encode_utf8, 2);
    if s.len() > 0 {
        lemma_utf8_bound(s.drop_first());
    }
}

pub proof fn lemma_short_text(s: Seq<char>)
    requires
        s.len() <= 1000,
    ensures
        fits_short(s),
{
    lemma_utf8_bound(s);
}

proof fn lemma_server_options_len()
    ensures
        options_bytes(server_options()).len() <= 10000,
{
    reveal_strlit("CQL_VERSION");
    reveal_strlit("COMPRESSION");
    reveal_strlit("PROTOCOL_VERSIONS");
    reveal_strlit("3.4.5");
    reveal_strlit("lz4");
    reveal_strlit("snappy");
    reveal_strlit("4");
    let options = server_options();
    lemma_options_len(options);
}

proof fn lemma_strings_len(v: Seq<Seq<char>>)
    requires
        forall|i: int| 0 <= i < v.len() ==> (#[trigger] v[i]).len() <= 100,
    ensures
        strings_bytes(v).len() <= 402 * v.len(),
    decreases v.len(),
{
    if v.len() > 0 {
        lemma_strings_len(v.drop_last());
        lemma_utf8_bound(v.last());
        lemma_be16_back(encode_utf8(v.last()).len() as u16);
    }
}

proof fn lemma_options_len(v: Seq<OptionView>)
    requires
        forall|i: int| 0 <= i < v.len() ==> (#[trigger] v[i]).0.len() <= 100 && v[i].1.len() <= 2,
        forall|i: int, j: int|
            0 <= i < v.len() && 0 <= j < v[i].1.len() ==> (#[trigger] v[i].1[j]).len() <= 100,
    ensures
        options_bytes(v).len() <= 2000 * v.len(),
    decreases v.len(),
{
    if v.len() > 0 {
        let before = v.drop_last();
        assert forall|i: int, j: int| 0 <= i < before.len() && 0 <= j < before[i].1.len() implies (
        #[trigger] before[i].1[j]).len() <= 100 by {
            assert(v[i].1[j].len() <= 100);
        }
        lemma_options_len(before);
        assert forall|j: int| 0 <= j < v.last().1.len() implies (#[trigger] v.last().1[j]).len()
            <= 100 by {
            assert(v[v.len() - 1].1[j].len() <= 100);
        }
        lemma_strings_len(v.last().1);
        lemma_utf8_bound(v.last().0);
        lemma_be16_back(encode_utf8(v.last().0).len() as u16);
        lemma_be16_back(v.last().1.len() as u16);
    }
}

/// Whether a frame says what the server supports, in some order.
pub open spec fn says_supported(
    out: Seq<u8>,
    version: u8,
    stream: i16,
    compression: Option<Compression>,
) -> bool {
    exists|body: Seq<u8>| #[trigger]
        is_multimap(body, server_options()) && out == frame_bytes(
            version,
            stream,
            ResponseOpcode::Supported,
            body,
            compression,
        )
}

/// The answer to an `OPTIONS`: what the server supports.
pub fn supported(version: u8, stream: i16, compression: Option<Compression>) -> (out: Vec<u8>)
    ensures
        says_supported(out@, version, stream, compression),
{
    let options: Vec<(String, Vec<String>)> = vec![
        ("CQL_VERSION".to_owned(), vec!["3.4.5".to_owned()]),
        ("COMPRESSION".to_owned(), vec!["lz4".to_owned(), "snappy".to_owned()]),
        ("PROTOCOL_VERSIONS".to_owned(), vec!["4".to_owned()]),
    ];
    proof {
        lemma_server_options_fit();
        lemma_server_options_len();
        assert(texts(options@[0].1@) =~= seq!["3.4.5"@]);
        assert(texts(options@[1].1@) =~= seq!["lz4"@, "snappy"@]);
        assert(texts(options@[2].1@) =~= seq!["4"@]);
        assert(option_views(options@) =~= server_options());
    }
    let body: Vec<u8> = multimap_of(options);
    response_frame(version, stream, ResponseOpcode::Supported, &body, compression)
}

/// The body of an error.
pub open spec fn error_body(code: i32, message: Seq<char>) -> Seq<u8> {
    be_i32(code) + string_bytes(message)
}

proof fn lemma_error_body(code: i32, message: Seq<char>)
    requires
        fits_short(message),
    ensures
        error_body(code, message).len() <= 100000,
{
    lemma_i32_back(code);
    lemma_string_bytes(message);
}

pub proof fn lemma_string_bytes(s: Seq<char>)
    ensures
        string_bytes(s).len() == 2 + encode_utf8(s).len(),
{
    lemma_be16_back(encode_utf8(s).len() as u16);
}

/// An error.
pub fn error(
    version: u8,
    stream: i16,
    code: i32,
    message: &str,
    compression: Option<Compression>,
) -> (out: Vec<u8>)
    requires
        fits_short(message@),
    ensures
        out@ == frame_bytes(
            version,
            stream,
            ResponseOpcode::Error,
            error_body(code, message@),
            compression,
        ),
{
    let mut body: Vec<u8> = Vec::new();
    put_i32(&mut body, code);
    write_string(message, &mut body);
    assert(body@ =~= error_body(code, message@));
    proof {
        lemma_error_body(code, message@);
    }
    response_frame(version, stream, ResponseOpcode::Error, &body, compression)
}

/// An answer without rows.
pub fn result_void(version: u8, stream: i16, compression: Option<Compression>) -> (out: Vec<u8>)
    ensures
        out@ == frame_bytes(version, stream, ResponseOpcode::Result, be_i32(0x0001), compression),
{
    let mut body: Vec<u8> = Vec::new();
    put_i32(&mut body, 0x0001);
    assert(body@ =~= be_i32(0x0001));
    proof {
        lemma_i32_back(0x0001);
    }
    response_frame(version, stream, ResponseOpcode::Result, &body, compression)
}

/// The body of the answer to a `USE`.
pub open spec fn set_keyspace_body(keyspace: Seq<char>) -> Seq<u8> {
    be_i32(0x0003) + string_bytes(keyspace)
}

/// The answer to a `USE`.
pub fn result_set_keyspace(
    version: u8,
    stream: i16,
    keyspace: &str,
    compression: Option<Compression>,
) -> (out: Vec<u8>)
    requires
        fits_short(keyspace@),
    ensures
        out@ == frame_bytes(
            version,
            stream,
            ResponseOpcode::Result,
            set_keyspace_body(keyspace@),
            compression,
        ),
{
    let mut body: Vec<u8> = Vec::new();
    put_i32(&mut body, 0x0003);
    write_string(keyspace, &mut body);
    assert(body@ =~= set_keyspace_body(keyspace@));
    proof {
        lemma_i32_back(0x0003);
        lemma_string_bytes(keyspace@);
    }
    response_frame(version, stream, ResponseOpcode::Result, &body, compression)
}

/// The body of the answer to a change of the schema.
pub open spec fn schema_change_body(
    change: Seq<char>,
    target: Seq<char>,
    keyspace: Seq<char>,
    table: Seq<char>,
) -> Seq<u8> {
    be_i32(0x0005) + string_bytes(change) + string_bytes(target) + string_bytes(keyspace)
        + string_bytes(table)
}

/// The answer to a change of the schema.
pub fn result_schema_change(
    version: u8,
    stream: i16,
    change: &str,
    target: &str,
    keyspace: &str,
    table: &str,
    compression: Option<Compression>,
) -> (out: Vec<u8>)
    requires
        fits_short(change@),
        fits_short(target@),
        fits_short(keyspace@),
        fits_short(table@),
    ensures
        out@ == frame_bytes(
            version,
            stream,
            ResponseOpcode::Result,
            schema_change_body(change@, target@, keyspace@, table@),
            compression,
        ),
{
    let mut body: Vec<u8> = Vec::new();
    put_i32(&mut body, 0x0005);
    write_string(change, &mut body);
    write_string(target, &mut body);
    write_string(keyspace, &mut body);
    write_string(table, &mut body);
    assert(body@ =~= schema_change_body(change@, target@, keyspace@, table@));
    proof {
        lemma_i32_back(0x0005);
        lemma_string_bytes(change@);
        lemma_string_bytes(target@);
        lemma_string_bytes(keyspace@);
        lemma_string_bytes(table@);
    }
    response_frame(version, stream, ResponseOpcode::Result, &body, compression)
}

/// Columns, each with its name and its type.
pub open spec fn columns_bytes(cols: Seq<NamedType>) -> Seq<u8>
    decreases cols.len(),
{
    if cols.len() == 0 {
        Seq::empty()
    } else {
        columns_bytes(cols.drop_last()) + (string_bytes(cols.last().0) + wire_type(cols.last().1))
    }
}

/// Whether the names of columns can be written.
pub open spec fn names_fit(cols: Seq<NamedType>) -> bool {
    forall|i: int| 0 <= i < cols.len() ==> fits_short((#[trigger] cols[i]).0)
}

fn write_columns(cols: &[(String, ColumnType)], body: &mut Vec<u8>)
    requires
        names_fit(named_types(cols@)),
    ensures
        final(body)@ == old(body)@ + columns_bytes(named_types(cols@)),
{
    let ghost views = named_types(cols@);
    let ghost start = body@;
    let mut i: usize = 0;
    assert(views.take(0) =~= Seq::<NamedType>::empty());
    assert(start + Seq::<u8>::empty() =~= start);
    while i < cols.len()
        invariant
            i <= cols@.len(),
            views == named_types(cols@),
            names_fit(views),
            body@ == start + columns_bytes(views.take(i as int)),
        decreases cols@.len() - i,
    {
        let ghost before = columns_bytes(views.take(i as int));
        assert(views[i as int] == (cols@[i as int].0@, cols@[i as int].1));
        write_string(&cols[i].0, body);
        cols[i].1.write_wire_type(body);
        proof {
            assert(views.take(i + 1).drop_last() =~= views.take(i as int));
            assert(views.take(i + 1).last() == views[i as int]);
            let piece = string_bytes(views[i as int].0) + wire_type(views[i as int].1);
            assert(body@ =~= start + (before + piece));
        }
        i += 1;
    }
    assert(views.take(i as int) =~= views);
}

/// Numbers of two bytes, one behind the other.
pub open spec fn shorts_bytes(v: Seq<u16>) -> Seq<u8>
    decreases v.len(),
{
    if v.len() == 0 {
        Seq::empty()
    } else {
        shorts_bytes(v.drop_last()) + be16(v.last())
    }
}

fn write_shorts(v: &[u16], body: &mut Vec<u8>)
    ensures
        final(body)@ == old(body)@ + shorts_bytes(v@),
{
    let ghost start = body@;
    let mut i: usize = 0;
    assert(v@.take(0) =~= Seq::<u16>::empty());
    assert(start + Seq::<u8>::empty() =~= start);
    while i < v.len()
        invariant
            i <= v@.len(),
            body@ == start + shorts_bytes(v@.take(i as int)),
        decreases v@.len() - i,
    {
        let ghost before = shorts_bytes(v@.take(i as int));
        put_u16(body, v[i]);
        proof {
            assert(v@.take(i + 1).drop_last() =~= v@.take(i as int));
            assert(v@.take(i + 1).last() == v@[i as int]);
            assert(body@ =~= start + (before + be16(v@[i as int])));
        }
        i += 1;
    }
    assert(v@.take(i as int) =~= v@);
}

/// The table that columns are of, and the columns.
pub open spec fn table_columns(keyspace: Seq<char>, table: Seq<char>, cols: Seq<NamedType>) -> Seq<
    u8,
> {
    string_bytes(keyspace) + string_bytes(table) + columns_bytes(cols)
}

fn write_table_columns(
    keyspace: &str,
    table: &str,
    cols: &[(String, ColumnType)],
    body: &mut Vec<u8>,
)
    requires
        fits_short(keyspace@),
        fits_short(table@),
        names_fit(named_types(cols@)),
    ensures
        final(body)@ == old(body)@ + table_columns(keyspace@, table@, named_types(cols@)),
{
    let ghost start = body@;
    write_string(keyspace, body);
    write_string(table, body);
    write_columns(cols, body);
    assert(body@ =~= start + table_columns(keyspace@, table@, named_types(cols@)));
}

/// The body of the answer to a `PREPARE`: the id of the statement, its bind
/// markers, and the columns of its result.
pub open spec fn prepared_body(
    id: Seq<u8>,
    keyspace: Seq<char>,
    table: Seq<char>,
    bind_specs: Seq<NamedType>,
    pk_indexes: Seq<u16>,
    result_cols: Seq<NamedType>,
) -> Seq<u8> {
    be_i32(0x0004) + (be16(id.len() as u16) + id) + be_i32(0x0001) + be_len(bind_specs.len())
        + be_len(pk_indexes.len()) + shorts_bytes(pk_indexes) + table_columns(
        keyspace,
        table,
        bind_specs,
    ) + be_i32(0x0001) + be_len(result_cols.len()) + table_columns(keyspace, table, result_cols)
}

/// The answer to a `PREPARE`.
pub fn result_prepared(
    version: u8,
    stream: i16,
    id: &[u8],
    keyspace: &str,
    table: &str,
    bind_specs: &[(String, ColumnType)],
    pk_indexes: &[u16],
    result_cols: &[(String, ColumnType)],
    compression: Option<Compression>,
) -> (out: Vec<u8>)
    requires
        id@.len() <= u16::MAX,
        fits_short(keyspace@),
        fits_short(table@),
        names_fit(named_types(bind_specs@)),
        names_fit(named_types(result_cols@)),
        sendable(
            prepared_body(
                id@,
                keyspace@,
                table@,
                named_types(bind_specs@),
                pk_indexes@,
                named_types(result_cols@),
            ).len(),
            compression,
        ),
    ensures
        out@ == frame_bytes(
            version,
            stream,
            ResponseOpcode::Result,
            prepared_body(
                id@,
                keyspace@,
                table@,
                named_types(bind_specs@),
                pk_indexes@,
                named_types(result_cols@),
            ),
            compression,
        ),
{
    let body: Vec<u8> = prepared_body_of(id, keyspace, table, bind_specs, pk_indexes, result_cols);
    response_frame(version, stream, ResponseOpcode::Result, &body, compression)
}

/// The body of the answer to a `PREPARE`.
pub fn prepared_body_of(
    id: &[u8],
    keyspace: &str,
    table: &str,
    bind_specs: &[(String, ColumnType)],
    pk_indexes: &[u16],
    result_cols: &[(String, ColumnType)],
) -> (body: Vec<u8>)
    requires
        id@.len() <= u16::MAX,
        fits_short(keyspace@),
        fits_short(table@),
        names_fit(named_types(bind_specs@)),
        names_fit(named_types(result_cols@)),
    ensures
        body@ == prepared_body(
            id@,
            keyspace@,
            table@,
            named_types(bind_specs@),
            pk_indexes@,
            named_types(result_cols@),
        ),
{
    let mut body: Vec<u8> = Vec::new();
    put_i32(&mut body, 0x0004);
    write_short_bytes(id, &mut body);
    put_i32(&mut body, 0x0001);
    put_len(&mut body, bind_specs.len());
    put_len(&mut body, pk_indexes.len());
    write_shorts(pk_indexes, &mut body);
    write_table_columns(keyspace, table, bind_specs, &mut body);
    put_i32(&mut body, 0x0001);
    put_len(&mut body, result_cols.len());
    write_table_columns(keyspace, table, result_cols, &mut body);
    assert(body@ =~= prepared_body(
        id@,
        keyspace@,
        table@,
        named_types(bind_specs@),
        pk_indexes@,
        named_types(result_cols@),
    ));
    body
}

/// Rows, one behind the other.
pub open spec fn rows_bytes(rows: Seq<Seq<ValueView>>) -> Seq<u8>
    decreases rows.len(),
{
    if rows.len() == 0 {
        Seq::empty()
    } else {
        rows_bytes(rows.drop_last()) + wire_all(rows.last())
    }
}

/// The metadata of rows, which may be left out.
pub open spec fn rows_metadata(
    keyspace: Seq<char>,
    table: Seq<char>,
    cols: Seq<NamedType>,
    skip_metadata: bool,
) -> Seq<u8> {
    if skip_metadata {
        be_i32(0x0000) + be_i32((-1) as i32)
    } else {
        be_i32(0x0001) + be_len(cols.len()) + table_columns(keyspace, table, cols)
    }
}

/// The body of an answer with rows.
pub open spec fn rows_body(
    keyspace: Seq<char>,
    table: Seq<char>,
    cols: Seq<NamedType>,
    rows: Seq<Seq<ValueView>>,
    skip_metadata: bool,
) -> Seq<u8> {
    be_i32(0x0002) + rows_metadata(keyspace, table, cols, skip_metadata) + be_len(rows.len())
        + rows_bytes(rows)
}

/// Whether the metadata of rows can be written.
pub open spec fn metadata_fits(
    keyspace: Seq<char>,
    table: Seq<char>,
    cols: Seq<NamedType>,
    skip_metadata: bool,
) -> bool {
    skip_metadata || (fits_short(keyspace) && fits_short(table) && names_fit(cols))
}

fn write_row(row: &Vec<Value>, body: &mut Vec<u8>)
    ensures
        final(body)@ == old(body)@ + wire_all(value_views(row@)),
{
    let ghost views = value_views(row@);
    let ghost start = body@;
    proof {
        lemma_value_views(row@);
    }
    let mut i: usize = 0;
    assert(views.take(0) =~= Seq::<ValueView>::empty());
    assert(start + Seq::<u8>::empty() =~= start);
    while i < row.len()
        invariant
            i <= row@.len(),
            views.len() == row@.len(),
            forall|j: int| 0 <= j < row@.len() ==> #[trigger] views[j] == row@[j]@,
            body@ == start + wire_all(views.take(i as int)),
        decreases row@.len() - i,
    {
        let ghost before = wire_all(views.take(i as int));
        row[i].write_wire(body);
        proof {
            assert(views.take(i + 1).drop_last() =~= views.take(i as int));
            assert(views.take(i + 1).last() == row@[i as int]@);
            assert(body@ =~= start + (before + wire(row@[i as int]@)));
        }
        i += 1;
    }
    assert(views.take(i as int) =~= views);
}

/// The body of an answer with rows.
pub fn rows_body_of(
    keyspace: &str,
    table: &str,
    cols: &[(String, ColumnType)],
    rows: &[Vec<Value>],
    skip_metadata: bool,
) -> (body: Vec<u8>)
    requires
        metadata_fits(keyspace@, table@, named_types(cols@), skip_metadata),
    ensures
        body@ == rows_body(
            keyspace@,
            table@,
            named_types(cols@),
            row_views(rows@),
            skip_metadata,
        ),
{
    let ghost views = row_views(rows@);
    let mut body: Vec<u8> = Vec::new();
    put_i32(&mut body, 0x0002);
    if skip_metadata {
        put_i32(&mut body, 0x0000);
        put_i32(&mut body, -1);
    } else {
        put_i32(&mut body, 0x0001);
        put_len(&mut body, cols.len());
        write_table_columns(keyspace, table, cols, &mut body);
    }
    put_len(&mut body, rows.len());
    let ghost head = body@;
    assert(head =~= be_i32(0x0002) + rows_metadata(
        keyspace@,
        table@,
        named_types(cols@),
        skip_metadata,
    ) + be_len(rows@.len()));
    let mut i: usize = 0;
    assert(views.take(0) =~= Seq::<Seq<ValueView>>::empty());
    assert(head + Seq::<u8>::empty() =~= head);
    while i < rows.len()
        invariant
            i <= rows@.len(),
            views == row_views(rows@),
            body@ == head + rows_bytes(views.take(i as int)),
        decreases rows@.len() - i,
    {
        let ghost before = rows_bytes(views.take(i as int));
        write_row(&rows[i], &mut body);
        proof {
            assert(views.take(i + 1).drop_last() =~= views.take(i as int));
            assert(views.take(i + 1).last() == value_views(rows@[i as int]@));
            assert(body@ =~= head + (before + wire_all(value_views(rows@[i as int]@))));
        }
        i += 1;
    }
    assert(views.take(i as int) =~= views);
    body
}

/// An answer with rows.
pub fn result_rows(
    version: u8,
    stream: i16,
    keyspace: &str,
    table: &str,
    cols: &[(String, ColumnType)],
    rows: &[Vec<Value>],
    skip_metadata: bool,
    compression: Option<Compression>,
) -> (out: Vec<u8>)
    requires
        metadata_fits(keyspace@, table@, named_types(cols@), skip_metadata),
        sendable(
            rows_body(
                keyspace@,
                table@,
                named_types(cols@),
                row_views(rows@),
                skip_metadata,
            ).len(),
            compression,
        ),
    ensures
        out@ == frame_bytes(
            version,
            stream,
            ResponseOpcode::Result,
            rows_body(keyspace@, table@, named_types(cols@), row_views(rows@), skip_metadata),
            compression,
        ),
{
    let body: Vec<u8> = rows_body_of(keyspace, table, cols, rows, skip_metadata);
    response_frame(version, stream, ResponseOpcode::Result, &body, compression)
}

} // verus!
