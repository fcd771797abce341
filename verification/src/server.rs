//! A connection: the frames that come in, the requests in them, and the frames
//! that answer them.

use crate::ast::share;
use crate::bytes::{
    be16, be32, be_i32, get_u16, get_u32, i16_of, lemma_be16_back, lemma_be32_back, lemma_i16_back,
    lemma_i32_back, put_u16, un_be,
};
use crate::error::{invalid, invalid_err, protocol_err, protocol_violation, ErrorView, QueryError};
use crate::expr::{bound_bytes, named_types, NamedType};
use crate::prepare::{
    prepare_target, prepared_info, prepared_target, prepared_view, PreparedInfo, PreparedView,
};
use crate::protocol::{
    error, error_body, frame_bytes, lemma_short_text, lemma_string_bytes, metadata_fits, names_fit,
    payload, prepared_body, prepared_body_of, ready, response_frame, result_schema_change,
    result_set_keyspace, result_void, rows_body, rows_body_of, says_supported, schema_change_body,
    sendable, set_keyspace_body, supported,
};
use crate::query::{
    execute_statement, first_next, found_table, looked_up, opt_view, outcome, parse_cached,
    query_statement, Next, NextView, Response, ResponseView,
};
use crate::schema::{ColumnType, TableDef, TableView};
use crate::storage::Storage;
use crate::text::{join2, lower_text, lowercase, same_text};
use crate::wire::{
    decompress, decompressed, fits_short, long_string, opcode_of, opt_values, params, params_cut,
    query_message, read_long_string, read_params, read_query, read_short_bytes, read_startup,
    request_opcode, response_code, short_bytes, startup_option, Params, ParamsView,
};
use cql3_parser::cassandra_statement::CassandraStatement;
use scylla_cql::frame::Compression;
use scylla_cql::frame::request::RequestOpcode;
use scylla_cql::frame::response::ResponseOpcode;
use scylla_cql::frame::types::RawValue;
use std::collections::HashMap;
use std::sync::Arc;
use vstd::prelude::*;

verus! {

/// The longest body that is accepted.
pub const MAX_FRAME_LENGTH: usize = 64 * 1024 * 1024;

/// How many requests of a connection may be executed at a time.
pub const PER_CONN_INFLIGHT: usize = 512;

/// How many bytes of responses are gathered before they are written.
pub const WRITE_FLUSH_THRESHOLD: usize = 256 * 1024;

/// The version of the protocol.
pub const VERSION: u8 = 0x04;

/// A statement that a client has prepared, and the types of its bind markers.
pub struct PreparedStmt {
    pub stmt: Arc<CassandraStatement>,
    pub bind_types: Vec<ColumnType>,
}

/// What a prepared statement is.
pub struct PreparedStmtView {
    pub stmt: CassandraStatement,
    pub bind_types: Seq<ColumnType>,
}

impl View for PreparedStmt {
    type V = PreparedStmtView;

    open spec fn view(&self) -> PreparedStmtView {
        PreparedStmtView { stmt: *self.stmt, bind_types: self.bind_types@ }
    }
}

/// No compression was agreed on.
pub const COMPRESSION_NONE: u8 = 0;

/// LZ4 was agreed on.
pub const COMPRESSION_LZ4: u8 = 1;

/// Snappy was agreed on.
pub const COMPRESSION_SNAPPY: u8 = 2;

/// The algorithm that a number stands for.
pub open spec fn algorithm_of(v: u8) -> Option<Compression> {
    if v == COMPRESSION_LZ4 {
        Some(Compression::Lz4)
    } else if v == COMPRESSION_SNAPPY {
        Some(Compression::Snappy)
    } else {
        None
    }
}

/// The algorithm that a number stands for.
pub fn decode_compression(v: u8) -> (r: Option<Compression>)
    ensures
        r == algorithm_of(v),
{
    if v == COMPRESSION_LZ4 {
        Some(Compression::Lz4)
    } else if v == COMPRESSION_SNAPPY {
        Some(Compression::Snappy)
    } else {
        None
    }
}

/// What a connection remembers.
pub struct Connection {
    compression: u8,
    keyspace: Option<String>,
    prepared: HashMap<u16, PreparedStmt>,
    next_prepared_id: u16,
}

/// What a connection remembers, mathematically: the prepared statements by
/// their ids.
pub struct ConnectionView {
    pub compression: Option<Compression>,
    pub keyspace: Option<Seq<char>>,
    pub prepared: Map<u16, PreparedStmtView>,
    pub next_prepared_id: u16,
}

impl View for Connection {
    type V = ConnectionView;

    closed spec fn view(&self) -> ConnectionView {
        ConnectionView {
            compression: algorithm_of(self.compression),
            keyspace: opt_view(self.keyspace),
            prepared: self.prepared@.map_values(|p: PreparedStmt| p@),
            next_prepared_id: self.next_prepared_id,
        }
    }
}

/// The prepared statement that the bytes of an id stand for.
pub open spec fn prepared_under(c: ConnectionView, id: Seq<u8>) -> Option<PreparedStmtView> {
    if id.len() == 2 && c.prepared.contains_key(un_be(id) as u16) {
        Some(c.prepared[un_be(id) as u16])
    } else {
        None
    }
}

impl Connection {
    /// A new connection.
    pub fn new() -> (c: Connection)
        ensures
            c@ == (ConnectionView {
                compression: None,
                keyspace: None,
                prepared: Map::empty(),
                next_prepared_id: 1,
            }),
    {
        broadcast use vstd::std_specs::hash::group_hash_axioms;

        let c: Connection = Connection {
            compression: COMPRESSION_NONE,
            keyspace: None,
            prepared: HashMap::new(),
            next_prepared_id: 1,
        };
        assert(c@.prepared =~= Map::<u16, PreparedStmtView>::empty());
        c
    }

    /// The compression that was agreed on.
    pub fn compression(&self) -> (r: Option<Compression>)
        ensures
            r == self@.compression,
    {
        decode_compression(self.compression)
    }

    /// The keyspace of the session.
    pub fn keyspace(&self) -> (r: Option<String>)
        ensures
            opt_view(r) == self@.keyspace,
    {
        match &self.keyspace {
            Some(ks) => Some(ks.clone()),
            None => None,
        }
    }

    /// Makes a keyspace that of the session.
    pub fn set_keyspace(&mut self, ks: &str)
        ensures
            final(self)@ == (ConnectionView { keyspace: Some(ks@), ..old(self)@ }),
    {
        self.keyspace = Some(ks.to_owned());
    }

    fn find_prepared(&self, id: &[u8]) -> (r: Option<&PreparedStmt>)
        ensures
            match prepared_under(self@, id@) {
                Some(p) => r matches Some(x) && x@ == p,
                None => r is None,
            },
    {
        broadcast use vstd::std_specs::hash::group_hash_axioms;

        if id.len() != 2 {
            return None;
        }
        let key: u16 = get_u16(id, 0);
        assert(id@.subrange(0, 2) =~= id@);
        self.prepared.get(&key)
    }

    /// Remembers a prepared statement under the next id, and gives the id.
    pub fn add_prepared(&mut self, p: PreparedStmt) -> (id: u16)
        ensures
            id == old(self)@.next_prepared_id,
            final(self)@ == (ConnectionView {
                prepared: old(self)@.prepared.insert(id, p@),
                next_prepared_id: next_id(id),
                ..old(self)@
            }),
    {
        broadcast use vstd::std_specs::hash::group_hash_axioms;

        let id: u16 = self.next_prepared_id;
        self.next_prepared_id = if id == u16::MAX {
            0
        } else {
            id + 1
        };
        self.prepared.insert(id, p);
        assert(self@.prepared =~= old(self)@.prepared.insert(id, p@));
        id
    }
}

/// The id after another.
pub open spec fn next_id(id: u16) -> u16 {
    if id == u16::MAX {
        0
    } else {
        (id + 1) as u16
    }
}

/// The header of a frame that is to be read.
pub struct FrameHead {
    pub compressed: bool,
    pub stream: i16,
    pub opcode: u8,
    pub length: usize,
}

/// What a header comes to.
pub enum Heard {
    /// The body is to be read.
    Awaits(FrameHead),
    /// The client is to be answered and the connection closed.
    Refused(Vec<u8>),
}

/// What a header is said to come to.
pub enum HeardView {
    Awaits { compressed: bool, stream: i16, opcode: u8, length: nat },
    Refused(Seq<u8>),
}

impl View for Heard {
    type V = HeardView;

    open spec fn view(&self) -> HeardView {
        match self {
            Heard::Awaits(h) => HeardView::Awaits {
                compressed: h.compressed,
                stream: h.stream,
                opcode: h.opcode,
                length: h.length as nat,
            },
            Heard::Refused(out) => HeardView::Refused(out@),
        }
    }
}

/// A violation of the protocol, as a frame.
pub open spec fn violation_frame(
    version: u8,
    stream: i16,
    message: Seq<char>,
    compression: Option<Compression>,
) -> Seq<u8> {
    frame_bytes(version, stream, ResponseOpcode::Error, error_body(0x000A, message), compression)
}

/// What the nine bytes of a header come to.
pub open spec fn heard(header: Seq<u8>, compression: Option<Compression>) -> HeardView {
    let version = header[0];
    let stream = i16_of(header.subrange(2, 4));
    let length = un_be(header.subrange(5, 9));
    if version != VERSION {
        HeardView::Refused(
            violation_frame(
                version,
                stream,
                "Unsupported protocol version; this server supports CQL v4"@,
                None,
            ),
        )
    } else if length > MAX_FRAME_LENGTH {
        HeardView::Refused(violation_frame(version, stream, "Frame too large"@, compression))
    } else {
        HeardView::Awaits {
            compressed: header[1] & 0x01 != 0,
            stream,
            opcode: header[4],
            length,
        }
    }
}

fn violation(version: u8, stream: i16, message: &str, compression: Option<Compression>) -> (out: Vec<
    u8,
>)
    requires
        fits_short(message@),
    ensures
        out@ == violation_frame(version, stream, message@, compression),
{
    error(version, stream, 0x000A, message, compression)
}

proof fn lemma_messages_fit()
    ensures
        fits_short("Unsupported protocol version; this server supports CQL v4"@),
        fits_short("Frame too large"@),
        fits_short("Received compressed frame without negotiated compression"@),
{
    reveal_strlit("Unsupported protocol version; this server supports CQL v4");
    reveal_strlit("Frame too large");
    reveal_strlit("Received compressed frame without negotiated compression");
    lemma_short_text("Unsupported protocol version; this server supports CQL v4"@);
    lemma_short_text("Frame too large"@);
    lemma_short_text("Received compressed frame without negotiated compression"@);
}

/// Whether a frame says that its body is compressed.
fn is_compressed(flags: u8) -> (r: bool)
    ensures
        r == (flags & 0x01 != 0),
{
    flags & 0x01 != 0
}

/// What the header of a frame comes to.
pub fn hear(conn: &Connection, header: &[u8]) -> (r: Heard)
    requires
        header@.len() == 9,
    ensures
        r@ == heard(header@, conn@.compression),
{
    proof {
        lemma_messages_fit();
    }
    assert(header.len() == 9);
    let version: u8 = header[0];
    let stream: i16 = get_u16(header, 2) as i16;
    let length: u32 = get_u32(header, 5);
    if version != VERSION {
        return Heard::Refused(
            violation(
                version,
                stream,
                "Unsupported protocol version; this server supports CQL v4",
                None,
            ),
        );
    }
    if length as usize > MAX_FRAME_LENGTH {
        return Heard::Refused(violation(version, stream, "Frame too large", conn.compression()));
    }
    Heard::Awaits(
        FrameHead {
            compressed: is_compressed(header[1]),
            stream,
            opcode: header[4],
            length: length as usize,
        },
    )
}

/// What the body of a frame comes to.
pub enum Opened {
    /// The body, as it was before it was compressed.
    Body(Vec<u8>),
    /// The client is to be answered; the connection stays open.
    Refused(Vec<u8>),
    /// The body cannot be decompressed: the connection is closed.
    Broken,
}

/// What a body is said to come to.
pub enum OpenedView {
    Body(Seq<u8>),
    Refused(Seq<u8>),
    Broken,
}

impl View for Opened {
    type V = OpenedView;

    open spec fn view(&self) -> OpenedView {
        match self {
            Opened::Body(b) => OpenedView::Body(b@),
            Opened::Refused(b) => OpenedView::Refused(b@),
            Opened::Broken => OpenedView::Broken,
        }
    }
}

/// What the body of a frame comes to.
pub open spec fn opened(
    compressed: bool,
    stream: i16,
    body: Seq<u8>,
    compression: Option<Compression>,
) -> OpenedView {
    if !compressed {
        OpenedView::Body(body)
    } else {
        match compression {
            Some(algorithm) => match decompressed(body, algorithm) {
                Some(b) => OpenedView::Body(b),
                None => OpenedView::Broken,
            },
            None => OpenedView::Refused(
                violation_frame(
                    VERSION,
                    stream,
                    "Received compressed frame without negotiated compression"@,
                    None,
                ),
            ),
        }
    }
}

/// What the body of a frame comes to.
pub fn open_body(conn: &Connection, head: &FrameHead, body: Vec<u8>) -> (r: Opened)
    ensures
        r@ == opened(head.compressed, head.stream, body@, conn@.compression),
{
    if !head.compressed {
        return Opened::Body(body);
    }
    match conn.compression() {
        Some(algorithm) => match decompress(&body, algorithm) {
            Some(b) => Opened::Body(b),
            None => Opened::Broken,
        },
        None => {
            proof {
                lemma_messages_fit();
            }
            Opened::Refused(
                violation(
                    VERSION,
                    head.stream,
                    "Received compressed frame without negotiated compression",
                    None,
                ),
            )
        },
    }
}

/// The lower case of an ASCII letter; any other byte is left alone.
pub open spec fn lower_byte(b: u8) -> u8 {
    if 0x41 <= b <= 0x5A {
        (b + 0x20) as u8
    } else {
        b
    }
}

/// The start of a text behind its length, as far as the body holds it.
pub open spec fn sniffed(body: Seq<u8>) -> Seq<u8> {
    let n = un_be(body.subrange(0, 4));
    let end = if n < body.len() - 4 {
        4 + n as int
    } else {
        body.len() as int
    };
    body.subrange(4, end)
}

/// Whether the body of a query starts with `USE `, in upper or lower case.
pub open spec fn starts_with_use(body: Seq<u8>) -> bool {
    &&& body.len() >= 4
    &&& sniffed(body).len() >= 4
    &&& lower_byte(sniffed(body)[0]) == 0x75
    &&& lower_byte(sniffed(body)[1]) == 0x73
    &&& lower_byte(sniffed(body)[2]) == 0x65
    &&& lower_byte(sniffed(body)[3]) == 0x20
}

fn lower(b: u8) -> (r: u8)
    ensures
        r == lower_byte(b),
{
    if 0x41 <= b && b <= 0x5A {
        b + 0x20
    } else {
        b
    }
}

/// Whether the body of a query starts with `USE `, in upper or lower case.
pub fn is_session_use(body: &[u8]) -> (r: bool)
    ensures
        r == starts_with_use(body@),
{
    if body.len() < 4 {
        return false;
    }
    let n: usize = get_u32(body, 0) as usize;
    let left: usize = body.len() - 4;
    let len: usize = if n < left {
        n
    } else {
        left
    };
    if len < 4 {
        return false;
    }
    lower(body[4]) == 0x75 && lower(body[5]) == 0x73 && lower(body[6]) == 0x65 && lower(body[7])
        == 0x20
}

/// Whether a request is executed before the next frame is read: all but
/// queries and executions, and of these what changes the session.
pub open spec fn in_order(opcode: u8, body: Seq<u8>) -> bool {
    (opcode_of(opcode) != Some(RequestOpcode::Query) && opcode_of(opcode) != Some(
        RequestOpcode::Execute,
    )) || starts_with_use(body)
}

/// Whether a request is executed before the next frame is read.
pub fn runs_in_order(opcode: u8, body: &[u8]) -> (r: bool)
    ensures
        r == in_order(opcode, body@),
{
    match request_opcode(opcode) {
        Some(RequestOpcode::Query) => is_session_use(body),
        Some(RequestOpcode::Execute) => is_session_use(body),
        _ => true,
    }
}

/// Whether a text can be written in a frame.
pub fn is_writable(s: &str) -> (r: bool)
    ensures
        r == fits_short(s@),
{
    s.as_bytes().len() <= u16::MAX as usize
}

fn names_writable(cols: &Vec<(String, ColumnType)>) -> (r: bool)
    ensures
        r == names_fit(named_types(cols@)),
{
    let ghost views = named_types(cols@);
    let mut i: usize = 0;
    while i < cols.len()
        invariant
            i <= cols@.len(),
            views == named_types(cols@),
            forall|j: int| 0 <= j < i ==> fits_short((#[trigger] views[j]).0),
        decreases cols@.len() - i,
    {
        if !is_writable(&cols[i].0) {
            assert(!fits_short(views[i as int].0));
            return false;
        }
        i += 1;
    }
    true
}

fn is_sendable(n: usize, compression: Option<Compression>) -> (r: bool)
    ensures
        r == sendable(n as nat, compression),
{
    match compression {
        Some(Compression::Snappy) => n as u128 + 32 + n as u128 / 6 <= u32::MAX as u128,
        _ => true,
    }
}

/// The frame with an error, unless its message is too long to be written.
pub open spec fn error_frame(
    version: u8,
    stream: i16,
    e: ErrorView,
    compression: Option<Compression>,
) -> Option<Seq<u8>> {
    if fits_short(e.message) {
        Some(
            frame_bytes(
                version,
                stream,
                ResponseOpcode::Error,
                error_body(e.code, e.message),
                compression,
            ),
        )
    } else {
        None
    }
}

pub open spec fn opt_frame(f: Option<Vec<u8>>) -> Option<Seq<u8>> {
    match f {
        Some(b) => Some(b@),
        None => None,
    }
}

/// The frame with an error, unless its message is too long to be written.
pub fn answer_error(
    version: u8,
    stream: i16,
    e: &QueryError,
    compression: Option<Compression>,
) -> (r: Option<Vec<u8>>)
    ensures
        opt_frame(r) == error_frame(version, stream, e@, compression),
{
    if is_writable(&e.message) {
        Some(error(version, stream, e.code, &e.message, compression))
    } else {
        None
    }
}

/// A body as a frame, if it can be sent.
pub open spec fn result_frame(
    version: u8,
    stream: i16,
    body: Seq<u8>,
    compression: Option<Compression>,
) -> Option<Seq<u8>> {
    if sendable(body.len(), compression) {
        Some(frame_bytes(version, stream, ResponseOpcode::Result, body, compression))
    } else {
        None
    }
}

/// The frame that answers a statement, unless a name in it is too long to be
/// written or the whole is too long to be compressed.
pub open spec fn answer_frame(
    version: u8,
    stream: i16,
    response: ResponseView,
    skip_metadata: bool,
    compression: Option<Compression>,
) -> Option<Seq<u8>> {
    match response {
        ResponseView::Rows { keyspace, table, cols, rows } => if metadata_fits(
            keyspace,
            table,
            cols,
            skip_metadata,
        ) {
            result_frame(
                version,
                stream,
                rows_body(keyspace, table, cols, rows, skip_metadata),
                compression,
            )
        } else {
            None
        },
        ResponseView::Void => result_frame(
            version,
            stream,
            be_i32(0x0001),
            compression,
        ),
        ResponseView::SetKeyspace(ks) => if fits_short(ks) {
            result_frame(version, stream, set_keyspace_body(ks), compression)
        } else {
            None
        },
        ResponseView::SchemaChange { change, target, keyspace, table } => if fits_short(change)
            && fits_short(target) && fits_short(keyspace) && fits_short(table) {
            result_frame(
                version,
                stream,
                schema_change_body(change, target, keyspace, table),
                compression,
            )
        } else {
            None
        },
    }
}

proof fn lemma_small_bodies(
    change: Seq<char>,
    target: Seq<char>,
    keyspace: Seq<char>,
    table: Seq<char>,
    compression: Option<Compression>,
)
    requires
        fits_short(change),
        fits_short(target),
        fits_short(keyspace),
        fits_short(table),
    ensures
        sendable(be_i32(0x0001).len(), compression),
        sendable(set_keyspace_body(keyspace).len(), compression),
        sendable(schema_change_body(change, target, keyspace, table).len(), compression),
{
    lemma_i32_back(0x0001);
    lemma_i32_back(0x0003);
    lemma_i32_back(0x0005);
    lemma_string_bytes(change);
    lemma_string_bytes(target);
    lemma_string_bytes(keyspace);
    lemma_string_bytes(table);
}

/// The frame that answers a statement, unless a name in it is too long to be
/// written or the whole is too long to be compressed.
pub fn respond(
    version: u8,
    stream: i16,
    compression: Option<Compression>,
    response: &Response,
    skip_metadata: bool,
) -> (r: Option<Vec<u8>>)
    ensures
        opt_frame(r) == answer_frame(version, stream, response@, skip_metadata, compression),
{
    match response {
        Response::Rows { keyspace, table, cols, rows } => {
            if !skip_metadata && !(is_writable(keyspace) && is_writable(table) && names_writable(
                cols,
            )) {
                return None;
            }
            let body: Vec<u8> = rows_body_of(keyspace, table, cols, rows, skip_metadata);
            if !is_sendable(body.len(), compression) {
                return None;
            }
            Some(response_frame(version, stream, ResponseOpcode::Result, &body, compression))
        },
        Response::Void => {
            proof {
                lemma_i32_back(0x0001);
            }
            Some(result_void(version, stream, compression))
        },
        Response::SetKeyspace(ks) => {
            if !is_writable(ks) {
                return None;
            }
            proof {
                lemma_small_bodies(ks@, ks@, ks@, ks@, compression);
            }
            Some(result_set_keyspace(version, stream, ks, compression))
        },
        Response::SchemaChange { change, target, keyspace, table } => {
            if !(is_writable(change) && is_writable(target) && is_writable(keyspace)
                && is_writable(table)) {
                return None;
            }
            proof {
                lemma_small_bodies(change@, target@, keyspace@, table@, compression);
            }
            Some(
                result_schema_change(version, stream, change, target, keyspace, table, compression),
            )
        },
    }
}

/// A statement that is being prepared: its table is to be looked up, for
/// [`finish_prepare`].
pub struct Preparing {
    pub stmt: Arc<CassandraStatement>,
    pub keyspace: String,
    pub table: String,
    pub compression: Option<Compression>,
}

/// A statement that is being executed. When its execution ends, the answer is
/// made by [`finish`].
pub struct Running {
    pub stmt: Arc<CassandraStatement>,
    pub values: Vec<Option<Vec<u8>>>,
    pub next: Next,
    pub skip_metadata: bool,
    /// Whether a `USE` takes effect on the session.
    pub sets_keyspace: bool,
    pub compression: Option<Compression>,
}

/// What a request comes to.
pub enum Handled {
    /// An answer.
    Answer(Vec<u8>),
    /// An error to answer with.
    Error(QueryError),
    Prepare(Preparing),
    Run(Running),
}

pub struct PreparingView {
    pub stmt: CassandraStatement,
    pub keyspace: Seq<char>,
    pub table: Seq<char>,
    pub compression: Option<Compression>,
}

pub struct RunningView {
    pub stmt: CassandraStatement,
    pub values: Seq<Option<Seq<u8>>>,
    pub next: NextView,
    pub skip_metadata: bool,
    pub sets_keyspace: bool,
    pub compression: Option<Compression>,
}

/// What a request is said to come to.
pub enum HandledView {
    Answer(Seq<u8>),
    Error(ErrorView),
    Prepare(PreparingView),
    Run(RunningView),
}

impl View for Preparing {
    type V = PreparingView;

    open spec fn view(&self) -> PreparingView {
        PreparingView {
            stmt: *self.stmt,
            keyspace: self.keyspace@,
            table: self.table@,
            compression: self.compression,
        }
    }
}

impl View for Running {
    type V = RunningView;

    open spec fn view(&self) -> RunningView {
        RunningView {
            stmt: *self.stmt,
            values: opt_values(self.values@),
            next: self.next@,
            skip_metadata: self.skip_metadata,
            sets_keyspace: self.sets_keyspace,
            compression: self.compression,
        }
    }
}

impl View for Handled {
    type V = HandledView;

    open spec fn view(&self) -> HandledView {
        match self {
            Handled::Answer(out) => HandledView::Answer(out@),
            Handled::Error(e) => HandledView::Error(e@),
            Handled::Prepare(p) => HandledView::Prepare(p@),
            Handled::Run(r) => HandledView::Run(r@),
        }
    }
}

impl Handled {
    /// What comes next in an execution is well formed.
    pub open spec fn wf(&self) -> bool {
        match self {
            Handled::Run(r) => r.next.wf(),
            _ => true,
        }
    }
}

/// The compression that a `STARTUP` asks for.
pub open spec fn startup_compression(body: Seq<u8>, current: Option<Compression>) -> Result<
    Option<Compression>,
    ErrorView,
> {
    match startup_option(body, "COMPRESSION"@) {
        None => Err(protocol_violation("Malformed STARTUP message"@)),
        Some(None) => Ok(current),
        Some(Some(name)) => if lower_text(name) == "lz4"@ {
            Ok(Some(Compression::Lz4))
        } else if lower_text(name) == "snappy"@ {
            Ok(Some(Compression::Snappy))
        } else {
            Err(protocol_violation("Unsupported compression algorithm: "@ + lower_text(name)))
        },
    }
}

/// A `QUERY`, by the statements that the cache holds once it is read. Its answer
/// does without the metadata of its rows if it asks for that and `may_skip`
/// allows it.
pub open spec fn handled_query(
    storage: Storage,
    c: ConnectionView,
    body: Seq<u8>,
    may_skip: bool,
) -> HandledView {
    match query_message(body) {
        None => HandledView::Error(protocol_violation("Malformed QUERY message"@)),
        Some((text, p)) => match query_statement(storage.statement(text)) {
            Err(e) => HandledView::Error(e),
            Ok(stmt) => HandledView::Run(
                RunningView {
                    stmt,
                    values: p.values,
                    next: first_next(c.keyspace, stmt),
                    skip_metadata: may_skip && p.skip_metadata,
                    sets_keyspace: true,
                    compression: c.compression,
                },
            ),
        },
    }
}

/// A `PREPARE`, by the statements that the cache holds once it is read.
pub open spec fn handled_prepare(storage: Storage, c: ConnectionView, body: Seq<u8>) -> HandledView {
    match long_string(body) {
        None => HandledView::Error(protocol_violation("Malformed PREPARE message"@)),
        Some((text, _)) => match query_statement(storage.statement(text)) {
            Err(e) => HandledView::Error(e),
            Ok(stmt) => match prepared_target(c.keyspace, stmt) {
                Err(e) => HandledView::Error(e),
                Ok((keyspace, table)) => HandledView::Prepare(
                    PreparingView { stmt, keyspace, table, compression: c.compression },
                ),
            },
        },
    }
}

/// An `EXECUTE`.
pub open spec fn handled_execute(c: ConnectionView, body: Seq<u8>) -> HandledView {
    match short_bytes(body) {
        None => HandledView::Error(protocol_violation("Malformed EXECUTE message"@)),
        Some((id, rest)) => match prepared_under(c, id) {
            None => HandledView::Error(invalid("Prepared statement not found (unprepared)"@)),
            Some(prepared) => match params(rest) {
                None => HandledView::Error(protocol_violation("Malformed EXECUTE parameters"@)),
                Some(p) => if p.values.len() != prepared.bind_types.len() {
                    HandledView::Error(invalid("Invalid amount of bind variables"@))
                } else {
                    HandledView::Run(
                        RunningView {
                            stmt: prepared.stmt,
                            values: p.values,
                            next: first_next(c.keyspace, prepared.stmt),
                            skip_metadata: p.skip_metadata,
                            sets_keyspace: false,
                            compression: c.compression,
                        },
                    )
                },
            },
        },
    }
}

/// The text that a request has read: that of a `QUERY` or of a `PREPARE`.
pub open spec fn request_text(opcode: u8, body: Seq<u8>) -> Option<Seq<char>> {
    match opcode_of(opcode) {
        Some(RequestOpcode::Query) => match query_message(body) {
            Some((text, _)) => Some(text),
            None => None,
        },
        Some(RequestOpcode::Prepare) => match long_string(body) {
            Some((text, _)) => Some(text),
            None => None,
        },
        _ => None,
    }
}

/// A request, all but an `OPTIONS`, by the statements that the cache holds once
/// its text is read.
pub open spec fn handled(
    storage: Storage,
    c: ConnectionView,
    opcode: u8,
    body: Seq<u8>,
    stream: i16,
    may_skip: bool,
) -> HandledView {
    match opcode_of(opcode) {
        None => HandledView::Error(protocol_violation("Unknown opcode"@)),
        Some(RequestOpcode::Startup) => match startup_compression(body, c.compression) {
            Err(e) => HandledView::Error(e),
            Ok(compression) => HandledView::Answer(
                frame_bytes(VERSION, stream, ResponseOpcode::Ready, Seq::empty(), compression),
            ),
        },
        Some(RequestOpcode::Query) => handled_query(storage, c, body, may_skip),
        Some(RequestOpcode::Prepare) => handled_prepare(storage, c, body),
        Some(RequestOpcode::Execute) => handled_execute(c, body),
        Some(RequestOpcode::Batch) => HandledView::Error(
            invalid("Batches are not supported yet"@),
        ),
        Some(RequestOpcode::AuthResponse) => HandledView::Error(
            protocol_violation("Authentication is not enabled"@),
        ),
        _ => HandledView::Answer(
            frame_bytes(VERSION, stream, ResponseOpcode::Ready, Seq::empty(), c.compression),
        ),
    }
}

/// The connection after a request: only a `STARTUP` changes it.
pub open spec fn connection_after(c: ConnectionView, opcode: u8, body: Seq<u8>) -> ConnectionView {
    match opcode_of(opcode) {
        Some(RequestOpcode::Startup) => match startup_compression(body, c.compression) {
            Ok(compression) => ConnectionView { compression, ..c },
            Err(_) => c,
        },
        _ => c,
    }
}

/// Whether parameters break off where their reader would give up with a panic.
fn params_break_off(b: &[u8]) -> (r: bool)
    ensures
        r == params_cut(b@),
{
    if b.len() != 2 {
        return false;
    }
    assert(b@.subrange(0, 2) =~= b@);
    get_u16(b, 0) <= 0x000A
}

fn handle_startup(conn: &mut Connection, body: &[u8], stream: i16) -> (h: Handled)
    ensures
        match startup_compression(body@, old(conn)@.compression) {
            Ok(compression) => h matches Handled::Answer(out) && out@ == frame_bytes(
                VERSION,
                stream,
                ResponseOpcode::Ready,
                Seq::empty(),
                compression,
            ) && final(conn)@ == (ConnectionView { compression, ..old(conn)@ }),
            Err(e) => h@ == HandledView::Error(e) && final(conn)@ == old(conn)@,
        },
{
    match read_startup(body, "COMPRESSION") {
        None => return Handled::Error(protocol_err("Malformed STARTUP message")),
        Some(None) => {},
        Some(Some(name)) => {
            let name: String = lowercase(&name);
            if same_text(&name, "lz4") {
                conn.compression = COMPRESSION_LZ4;
            } else if same_text(&name, "snappy") {
                conn.compression = COMPRESSION_SNAPPY;
            } else {
                return Handled::Error(
                    protocol_err(&join2("Unsupported compression algorithm: ", &name)),
                );
            }
        },
    }
    Handled::Answer(ready(VERSION, stream, conn.compression()))
}

fn handle_query(
    storage: &mut Storage,
    conn: &Connection,
    body: &[u8],
    may_skip: bool,
) -> (h: Handled)
    requires
        old(storage).wf(),
    ensures
        final(storage).wf(),
        final(storage).same_definitions(old(storage)),
        h@ == handled_query(*final(storage), conn@, body@, may_skip),
        query_message(body@) matches Some((text, _)) ==> looked_up(
            old(storage).statement(text),
            text,
            final(storage).statement(text),
        ),
        h.wf(),
{
    if let Some((_, rest)) = read_long_string(body) {
        if params_break_off(rest) {
            return Handled::Error(protocol_err("Malformed QUERY message"));
        }
    }
    let (text, p): (String, Params) = match read_query(body) {
        Some(q) => q,
        None => return Handled::Error(protocol_err("Malformed QUERY message")),
    };
    match parse_cached(storage, &text) {
        Ok(stmt) => {
            let session: Option<String> = conn.keyspace();
            let next: Next = execute_statement(&session, &stmt);
            Handled::Run(
                Running {
                    stmt,
                    values: p.values,
                    next,
                    skip_metadata: may_skip && p.skip_metadata,
                    sets_keyspace: true,
                    compression: conn.compression(),
                },
            )
        },
        Err(e) => Handled::Error(e),
    }
}

fn handle_prepare(storage: &mut Storage, conn: &Connection, body: &[u8]) -> (h: Handled)
    requires
        old(storage).wf(),
    ensures
        final(storage).wf(),
        final(storage).same_definitions(old(storage)),
        h@ == handled_prepare(*final(storage), conn@, body@),
        long_string(body@) matches Some((text, _)) ==> looked_up(
            old(storage).statement(text),
            text,
            final(storage).statement(text),
        ),
        h.wf(),
{
    let text: &str = match read_long_string(body) {
        Some((text, _)) => text,
        None => return Handled::Error(protocol_err("Malformed PREPARE message")),
    };
    match parse_cached(storage, text) {
        Ok(stmt) => {
            let session: Option<String> = conn.keyspace();
            match prepare_target(&session, &stmt) {
                Ok((keyspace, table)) => Handled::Prepare(
                    Preparing { stmt, keyspace, table, compression: conn.compression() },
                ),
                Err(e) => Handled::Error(e),
            }
        },
        Err(e) => Handled::Error(e),
    }
}

fn handle_execute(conn: &Connection, body: &[u8]) -> (h: Handled)
    ensures
        h@ == handled_execute(conn@, body@),
        h.wf(),
{
    let (id, rest): (&[u8], &[u8]) = match read_short_bytes(body) {
        Some(x) => x,
        None => return Handled::Error(protocol_err("Malformed EXECUTE message")),
    };
    let prepared: &PreparedStmt = match conn.find_prepared(id) {
        Some(p) => p,
        None => return Handled::Error(invalid_err("Prepared statement not found (unprepared)")),
    };
    if params_break_off(rest) {
        return Handled::Error(protocol_err("Malformed EXECUTE parameters"));
    }
    let p: Params = match read_params(rest) {
        Some(p) => p,
        None => return Handled::Error(protocol_err("Malformed EXECUTE parameters")),
    };
    if p.values.len() != prepared.bind_types.len() {
        return Handled::Error(invalid_err("Invalid amount of bind variables"));
    }
    let session: Option<String> = conn.keyspace();
    let next: Next = execute_statement(&session, &prepared.stmt);
    Handled::Run(
        Running {
            stmt: share(&prepared.stmt),
            values: p.values,
            next,
            skip_metadata: p.skip_metadata,
            sets_keyspace: false,
            compression: conn.compression(),
        },
    )
}

/// What a request comes to. `may_skip` tells whether a `QUERY` can do without
/// the metadata of its rows, as an `EXECUTE` can.
pub fn handle_request(
    storage: &mut Storage,
    conn: &mut Connection,
    opcode: u8,
    body: &[u8],
    stream: i16,
    may_skip: bool,
) -> (h: Handled)
    requires
        old(storage).wf(),
    ensures
        final(storage).wf(),
        final(storage).same_definitions(old(storage)),
        final(conn)@ == connection_after(old(conn)@, opcode, body@),
        h.wf(),
        if opcode_of(opcode) == Some(RequestOpcode::Options) {
            h matches Handled::Answer(out) && says_supported(
                out@,
                VERSION,
                stream,
                old(conn)@.compression,
            )
        } else {
            h@ == handled(*final(storage), old(conn)@, opcode, body@, stream, may_skip)
        },
        request_text(opcode, body@) matches Some(text) ==> looked_up(
            old(storage).statement(text),
            text,
            final(storage).statement(text),
        ),
{
    match request_opcode(opcode) {
        None => Handled::Error(protocol_err("Unknown opcode")),
        Some(RequestOpcode::Options) => Handled::Answer(
            supported(VERSION, stream, conn.compression()),
        ),
        Some(RequestOpcode::Startup) => handle_startup(conn, body, stream),
        Some(RequestOpcode::Register) => Handled::Answer(ready(VERSION, stream, conn.compression())),
        Some(RequestOpcode::Query) => handle_query(storage, conn, body, may_skip),
        Some(RequestOpcode::Prepare) => handle_prepare(storage, conn, body),
        Some(RequestOpcode::Execute) => handle_execute(conn, body),
        Some(RequestOpcode::Batch) => Handled::Error(invalid_err("Batches are not supported yet")),
        Some(RequestOpcode::AuthResponse) => Handled::Error(
            protocol_err("Authentication is not enabled"),
        ),
    }
}

/// The bound values of a request, as an execution takes them.
pub fn raw_values<'a>(values: &'a Vec<Option<Vec<u8>>>) -> (r: Vec<RawValue<'a>>)
    ensures
        r@.map_values(|v: RawValue| bound_bytes(v)) == opt_values(values@),
{
    let ghost all = opt_values(values@);
    let mut r: Vec<RawValue<'a>> = Vec::new();
    let mut i: usize = 0;
    assert(r@.map_values(|v: RawValue| bound_bytes(v)) =~= all.take(0));
    while i < values.len()
        invariant
            i <= values@.len(),
            all == opt_values(values@),
            r@.map_values(|v: RawValue| bound_bytes(v)) == all.take(i as int),
        decreases values@.len() - i,
    {
        let ghost before = r@.map_values(|v: RawValue| bound_bytes(v));
        match &values[i] {
            Some(b) => r.push(RawValue::Value(b.as_slice())),
            None => r.push(RawValue::Null),
        }
        assert(r@.map_values(|v: RawValue| bound_bytes(v)) =~= before.push(all[i as int]));
        i += 1;
        assert(before.push(all[i - 1]) =~= all.take(i as int));
    }
    assert(all.take(i as int) =~= all);
    r
}

/// The answer to an execution: its outcome, or the error that it ended with.
pub open spec fn finished(
    c: ConnectionView,
    stream: i16,
    r: RunningView,
    result: Result<ResponseView, ErrorView>,
) -> Option<Seq<u8>> {
    match result {
        Ok(response) => answer_frame(VERSION, stream, response, r.skip_metadata, r.compression),
        Err(e) => error_frame(VERSION, stream, e, c.compression),
    }
}

/// The session after an execution: a `USE` in a query changes its keyspace.
pub open spec fn session_changed(
    c: ConnectionView,
    sets_keyspace: bool,
    result: Result<ResponseView, ErrorView>,
) -> ConnectionView {
    match result {
        Ok(ResponseView::SetKeyspace(ks)) => if sets_keyspace {
            ConnectionView { keyspace: Some(ks), ..c }
        } else {
            c
        },
        _ => c,
    }
}

/// Ends an execution: makes the answer, unless a text in it is too long to be
/// written or the whole is too long to be compressed.
pub fn finish(
    conn: &mut Connection,
    stream: i16,
    running: &Running,
    result: &Result<Response, QueryError>,
) -> (r: Option<Vec<u8>>)
    ensures
        opt_frame(r) == finished(old(conn)@, stream, running@, outcome(*result)),
        final(conn)@ == session_changed(
            old(conn)@,
            running.sets_keyspace,
            outcome(*result),
        ),
{
    match result {
        Ok(response) => {
            if let Response::SetKeyspace(ks) = response {
                if running.sets_keyspace {
                    conn.set_keyspace(ks);
                }
            }
            respond(VERSION, stream, running.compression, response, running.skip_metadata)
        },
        Err(e) => answer_error(VERSION, stream, e, conn.compression()),
    }
}

/// The answer to a `PREPARE` that succeeds with an id.
pub open spec fn prepared_answer(
    stream: i16,
    id: u16,
    info: PreparedView,
    compression: Option<Compression>,
) -> Option<Seq<u8>> {
    if fits_short(info.keyspace) && fits_short(info.table) && names_fit(info.bind_specs)
        && names_fit(info.result_cols) {
        result_frame(
            VERSION,
            stream,
            prepared_body(
                be16(id),
                info.keyspace,
                info.table,
                info.bind_specs,
                info.pk_indexes,
                info.result_cols,
            ),
            compression,
        )
    } else {
        None
    }
}

/// The types of named columns.
pub open spec fn types_of(cols: Seq<NamedType>) -> Seq<ColumnType> {
    cols.map_values(|c: NamedType| c.1)
}

fn types_only(cols: &Vec<(String, ColumnType)>) -> (r: Vec<ColumnType>)
    ensures
        r@ == types_of(named_types(cols@)),
{
    let ghost all = types_of(named_types(cols@));
    let mut r: Vec<ColumnType> = Vec::new();
    let mut i: usize = 0;
    assert(r@ =~= all.take(0));
    while i < cols.len()
        invariant
            i <= cols@.len(),
            all == types_of(named_types(cols@)),
            r@ == all.take(i as int),
        decreases cols@.len() - i,
    {
        let ghost before = r@;
        r.push(cols[i].1.clone());
        assert(r@ =~= before.push(all[i as int]));
        i += 1;
        assert(r@ =~= all.take(i as int));
    }
    assert(all.take(i as int) =~= all);
    r
}

/// A `PREPARE`, given what the lookup of its table found: the answer, and the
/// connection after it.
pub open spec fn prepare_finished(
    c: ConnectionView,
    stream: i16,
    p: PreparingView,
    found: Result<Option<TableView>, Seq<char>>,
) -> (Option<Seq<u8>>, ConnectionView) {
    match prepared_view(p.stmt, p.keyspace, p.table, found) {
        Err(e) => (error_frame(VERSION, stream, e, c.compression), c),
        Ok(info) => (
            prepared_answer(stream, c.next_prepared_id, info, p.compression),
            ConnectionView {
                prepared: c.prepared.insert(
                    c.next_prepared_id,
                    PreparedStmtView { stmt: p.stmt, bind_types: types_of(info.bind_specs) },
                ),
                next_prepared_id: next_id(c.next_prepared_id),
                ..c
            },
        ),
    }
}

/// Ends a `PREPARE`, given what the lookup of its table found: remembers the
/// statement and makes the answer, unless a name in it is too long to be
/// written or the whole is too long to be compressed.
pub fn finish_prepare(
    conn: &mut Connection,
    stream: i16,
    p: Preparing,
    found: Result<Option<TableDef>, String>,
) -> (r: Option<Vec<u8>>)
    ensures
        (opt_frame(r), final(conn)@) == prepare_finished(
            old(conn)@,
            stream,
            p@,
            found_table(found),
        ),
{
    let info: PreparedInfo = match prepared_info(&p.stmt, &p.keyspace, &p.table, found) {
        Ok(info) => info,
        Err(e) => return answer_error(VERSION, stream, &e, conn.compression()),
    };
    let id: u16 = conn.add_prepared(
        PreparedStmt { stmt: p.stmt, bind_types: types_only(&info.bind_specs) },
    );
    let mut id_bytes: Vec<u8> = Vec::new();
    put_u16(&mut id_bytes, id);
    assert(id_bytes@ =~= be16(id));
    proof {
        lemma_be16_back(id);
    }
    if !(is_writable(&info.keyspace) && is_writable(&info.table) && names_writable(
        &info.bind_specs,
    ) && names_writable(&info.result_cols)) {
        return None;
    }
    let body: Vec<u8> = prepared_body_of(
        &id_bytes,
        &info.keyspace,
        &info.table,
        &info.bind_specs,
        &info.pk_indexes,
        &info.result_cols,
    );
    if !is_sendable(body.len(), p.compression) {
        return None;
    }
    Some(response_frame(VERSION, stream, ResponseOpcode::Result, &body, p.compression))
}

/// A statement that was prepared is found under the id that the client was
/// given.
pub proof fn law_prepared_is_found(
    c: ConnectionView,
    stream: i16,
    p: PreparingView,
    found: Result<Option<TableView>, Seq<char>>,
)
    requires
        prepared_view(p.stmt, p.keyspace, p.table, found) is Ok,
    ensures
        prepared_under(
            prepare_finished(c, stream, p, found).1,
            be16(c.next_prepared_id),
        ) == Some(
            PreparedStmtView {
                stmt: p.stmt,
                bind_types: types_of(
                    prepared_view(p.stmt, p.keyspace, p.table, found)->Ok_0.bind_specs,
                ),
            },
        ),
{
    lemma_be16_back(c.next_prepared_id);
}

/// Preparing a statement leaves those with other ids as they were.
pub proof fn law_prepared_is_kept(
    c: ConnectionView,
    stream: i16,
    p: PreparingView,
    found: Result<Option<TableView>, Seq<char>>,
    id: u16,
)
    requires
        id != c.next_prepared_id,
    ensures
        prepared_under(prepare_finished(c, stream, p, found).1, be16(id)) == prepared_under(
            c,
            be16(id),
        ),
{
    lemma_be16_back(id);
}

/// An id is given again only after every other one has been given.
pub proof fn law_ids_come_round(start: u16, k: nat)
    requires
        0 < k < 0x1_0000,
    ensures
        nth_id(start, k) != start,
        nth_id(start, 0x1_0000) == start,
{
    lemma_nth_id(start, k);
    lemma_nth_id(start, 0x1_0000);
}

/// The id that comes `k` ids after another.
pub open spec fn nth_id(start: u16, k: nat) -> u16
    decreases k,
{
    if k == 0 {
        start
    } else {
        next_id(nth_id(start, (k - 1) as nat))
    }
}

proof fn lemma_nth_id(start: u16, k: nat)
    ensures
        nth_id(start, k) as int == (start + k) % 0x1_0000,
    decreases k,
{
    if k > 0 {
        lemma_nth_id(start, (k - 1) as nat);
    }
}

/// A frame that the server sends says which stream it answers, what it is, and
/// how long its body is.
pub proof fn law_response_header(
    version: u8,
    stream: i16,
    opcode: ResponseOpcode,
    body: Seq<u8>,
    compression: Option<Compression>,
)
    requires
        payload(body, compression).len() <= u32::MAX,
    ensures
        ({
            let out = frame_bytes(version, stream, opcode, body, compression);
            &&& out.len() == 9 + payload(body, compression).len()
            &&& out[0] == version | 0x80
            &&& out[1] == if compression is Some {
                1u8
            } else {
                0u8
            }
            &&& i16_of(out.subrange(2, 4)) == stream
            &&& out[4] == response_code(opcode)
            &&& un_be(out.subrange(5, 9)) == payload(body, compression).len()
            &&& out.skip(9) == payload(body, compression)
        }),
{
    let sent = payload(body, compression);
    let out = frame_bytes(version, stream, opcode, body, compression);
    lemma_i16_back(stream);
    lemma_be32_back(sent.len() as u32);
    assert(out.subrange(2, 4) =~= be16(stream as u16));
    assert(out.subrange(5, 9) =~= be32(sent.len() as u32));
    assert(out.skip(9) =~= sent);
}

/// An `EXECUTE` of a statement that was prepared runs as a `QUERY` with the
/// same statement and the same values does where a `QUERY` may do without
/// metadata, but leaves the session's keyspace alone.
pub proof fn law_execute_runs_like_query(
    storage: Storage,
    c: ConnectionView,
    execute_body: Seq<u8>,
    query_body: Seq<u8>,
    id: Seq<u8>,
    rest: Seq<u8>,
    text: Seq<char>,
    p: ParamsView,
    prepared: PreparedStmtView,
)
    requires
        short_bytes(execute_body) == Some((id, rest)),
        params(rest) == Some(p),
        prepared_under(c, id) == Some(prepared),
        prepared.bind_types.len() == p.values.len(),
        query_message(query_body) == Some((text, p)),
        storage.statement(text) == Some(prepared.stmt),
    ensures
        handled_execute(c, execute_body) matches HandledView::Run(r) && !r.sets_keyspace
            && handled_query(storage, c, query_body, true) == HandledView::Run(
            RunningView { sets_keyspace: true, ..r },
        ),
{
}

} // verus!
