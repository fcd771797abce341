//! The pieces that messages of the CQL binary protocol are made of.
//!
//! A reader takes a value from the front of a byte sequence and gives it back
//! with what follows.

use crate::bytes::{be16, i32_of, un_be};
use crate::text::texts;
use scylla_cql::frame::protocol_features::ProtocolFeatures;
use scylla_cql::frame::request::query::QueryParameters;
use scylla_cql::frame::request::{DeserializableRequest, Query, RequestOpcode, Startup};
use scylla_cql::frame::response::ResponseOpcode;
use scylla_cql::frame::{types, Compression};
use std::collections::HashMap;
use vstd::prelude::*;
use vstd::utf8::{decode_utf8, encode_utf8, valid_utf8};

verus! {

/// The compression algorithms of the protocol.
#[verifier::external_type_specification]
pub struct ExCompression(scylla_cql::frame::Compression);

/// The kinds of requests.
#[verifier::external_type_specification]
pub struct ExRequestOpcode(scylla_cql::frame::request::RequestOpcode);

/// The kinds of responses.
#[verifier::external_type_specification]
pub struct ExResponseOpcode(scylla_cql::frame::response::ResponseOpcode);

/// The number of a kind of response.
pub open spec fn response_code(opcode: ResponseOpcode) -> u8 {
    match opcode {
        ResponseOpcode::Error => 0x00,
        ResponseOpcode::Ready => 0x02,
        ResponseOpcode::Authenticate => 0x03,
        ResponseOpcode::Supported => 0x06,
        ResponseOpcode::Result => 0x08,
        ResponseOpcode::Event => 0x0C,
        ResponseOpcode::AuthChallenge => 0x0E,
        ResponseOpcode::AuthSuccess => 0x10,
    }
}

/// The number of a kind of response.
pub fn response_byte(opcode: ResponseOpcode) -> (b: u8)
    ensures
        b == response_code(opcode),
{
    match opcode {
        ResponseOpcode::Error => 0x00,
        ResponseOpcode::Ready => 0x02,
        ResponseOpcode::Authenticate => 0x03,
        ResponseOpcode::Supported => 0x06,
        ResponseOpcode::Result => 0x08,
        ResponseOpcode::Event => 0x0C,
        ResponseOpcode::AuthChallenge => 0x0E,
        ResponseOpcode::AuthSuccess => 0x10,
    }
}

/// The kind of request that a number stands for.
pub open spec fn opcode_of(b: u8) -> Option<RequestOpcode> {
    if b == 0x01 {
        Some(RequestOpcode::Startup)
    } else if b == 0x05 {
        Some(RequestOpcode::Options)
    } else if b == 0x07 {
        Some(RequestOpcode::Query)
    } else if b == 0x09 {
        Some(RequestOpcode::Prepare)
    } else if b == 0x0A {
        Some(RequestOpcode::Execute)
    } else if b == 0x0B {
        Some(RequestOpcode::Register)
    } else if b == 0x0D {
        Some(RequestOpcode::Batch)
    } else if b == 0x0F {
        Some(RequestOpcode::AuthResponse)
    } else {
        None
    }
}

/// `RequestOpcode::try_from` of `scylla_cql`: the kind of request that a
/// number stands for, if it stands for one.
#[verifier::external_body]
pub(crate) fn request_opcode(b: u8) -> (r: Option<RequestOpcode>)
    ensures
        r == opcode_of(b),
{
    RequestOpcode::try_from(b).ok()
}

/// A short: two bytes.
pub open spec fn read_short(b: Seq<u8>) -> Option<(nat, Seq<u8>)> {
    if b.len() < 2 {
        None
    } else {
        Some((un_be(b.take(2)), b.skip(2)))
    }
}

/// An int: four bytes, signed.
pub open spec fn read_int(b: Seq<u8>) -> Option<(i32, Seq<u8>)> {
    if b.len() < 4 {
        None
    } else {
        Some((i32_of(b.take(4)), b.skip(4)))
    }
}

/// A given number of bytes.
pub open spec fn read_raw(b: Seq<u8>, n: nat) -> Option<(Seq<u8>, Seq<u8>)> {
    if b.len() < n {
        None
    } else {
        Some((b.take(n as int), b.skip(n as int)))
    }
}

/// Bytes behind their length, a short.
pub open spec fn short_bytes(b: Seq<u8>) -> Option<(Seq<u8>, Seq<u8>)> {
    match read_short(b) {
        None => None,
        Some((n, rest)) => read_raw(rest, n),
    }
}

/// Bytes that must be a text.
pub open spec fn as_text(r: Option<(Seq<u8>, Seq<u8>)>) -> Option<(Seq<char>, Seq<u8>)> {
    match r {
        Some((raw, rest)) => if valid_utf8(raw) {
            Some((decode_utf8(raw), rest))
        } else {
            None
        },
        None => None,
    }
}

/// A text behind its length, a short.
pub open spec fn short_string(b: Seq<u8>) -> Option<(Seq<char>, Seq<u8>)> {
    as_text(short_bytes(b))
}

/// Bytes behind their length, an int that is not negative.
pub open spec fn int_bytes(b: Seq<u8>) -> Option<(Seq<u8>, Seq<u8>)> {
    match read_int(b) {
        None => None,
        Some((n, rest)) => if n < 0 {
            None
        } else {
            read_raw(rest, n as nat)
        },
    }
}

/// A text behind its length, an int.
pub open spec fn long_string(b: Seq<u8>) -> Option<(Seq<char>, Seq<u8>)> {
    as_text(int_bytes(b))
}

/// `types::read_long_string` of `scylla_cql`: a text behind its length, an int,
/// and what follows.
#[verifier::external_body]
pub(crate) fn read_long_string<'a>(buf: &'a [u8]) -> (r: Option<(&'a str, &'a [u8])>)
    ensures
        match long_string(buf@) {
            Some((s, rest)) => r matches Some(x) && x.0@ == s && x.1@ == rest,
            None => r is None,
        },
{
    let mut rest: &'a [u8] = buf;
    types::read_long_string(&mut rest).ok().map(|s| (s, rest))
}

/// `types::read_short_bytes` of `scylla_cql`: bytes behind their length, a
/// short, and what follows.
#[verifier::external_body]
pub(crate) fn read_short_bytes<'a>(buf: &'a [u8]) -> (r: Option<(&'a [u8], &'a [u8])>)
    ensures
        match short_bytes(buf@) {
            Some((s, rest)) => r matches Some(x) && x.0@ == s && x.1@ == rest,
            None => r is None,
        },
{
    let mut rest: &'a [u8] = buf;
    types::read_short_bytes(&mut rest).ok().map(|s| (s, rest))
}

/// The last value that `n` pairs of texts give `key`; `held` is the value so
/// far. There is none if the pairs are cut short or are no texts.
pub open spec fn option_in(b: Seq<u8>, n: nat, key: Seq<char>, held: Option<Seq<char>>) -> Option<
    Option<Seq<char>>,
>
    decreases n,
{
    if n == 0 {
        Some(held)
    } else {
        match short_string(b) {
            None => None,
            Some((k, rest)) => match short_string(rest) {
                None => None,
                Some((v, after)) => option_in(
                    after,
                    (n - 1) as nat,
                    key,
                    if k == key {
                        Some(v)
                    } else {
                        held
                    },
                ),
            },
        }
    }
}

/// What a `STARTUP` message gives the option `key`.
pub open spec fn startup_option(b: Seq<u8>, key: Seq<char>) -> Option<Option<Seq<char>>> {
    match read_short(b) {
        None => None,
        Some((n, rest)) => option_in(rest, n, key, None),
    }
}

/// `Startup::deserialize_with_features` of `scylla_cql` and a lookup among the
/// options: the value of an option. `None` stands for a malformed message.
#[verifier::external_body]
pub(crate) fn read_startup(body: &[u8], key: &str) -> (r: Option<Option<String>>)
    ensures
        match startup_option(body@, key@) {
            None => r is None,
            Some(None) => r matches Some(x) && x is None,
            Some(Some(v)) => r matches Some(Some(x)) && x@ == v,
        },
{
    let mut buf = body;
    let startup = Startup::deserialize_with_features(&mut buf, &ProtocolFeatures::default()).ok()?;
    Some(startup.options.get(key).map(|v| v.to_string()))
}

/// Whether a number stands for a consistency level.
pub open spec fn is_consistency(code: nat) -> bool {
    code <= 0x000A
}

/// A bound value: an int, and as many bytes as it says. Null and unset values
/// have no bytes.
pub open spec fn read_value(b: Seq<u8>) -> Option<(Option<Seq<u8>>, Seq<u8>)> {
    match read_int(b) {
        None => None,
        Some((n, rest)) => if n == -1 || n == -2 {
            Some((None, rest))
        } else if n < 0 {
            None
        } else {
            match read_raw(rest, n as nat) {
                None => None,
                Some((v, after)) => Some((Some(v), after)),
            }
        },
    }
}

/// `n` bound values.
pub open spec fn read_values(b: Seq<u8>, n: nat) -> Option<(Seq<Option<Seq<u8>>>, Seq<u8>)>
    decreases n,
{
    if n == 0 {
        Some((Seq::empty(), b))
    } else {
        match read_value(b) {
            None => None,
            Some((v, rest)) => match read_values(rest, (n - 1) as nat) {
                None => None,
                Some((vs, after)) => Some((seq![v] + vs, after)),
            },
        }
    }
}

/// The bound values, if the flags announce them.
pub open spec fn bound_values(flags: u8, b: Seq<u8>) -> Option<(Seq<Option<Seq<u8>>>, Seq<u8>)> {
    if flags & 0x01 == 0 {
        Some((Seq::empty(), b))
    } else {
        match read_short(b) {
            None => None,
            Some((n, rest)) => read_values(rest, n),
        }
    }
}

/// What follows the page size, if the flags announce one.
pub open spec fn after_page_size(flags: u8, b: Seq<u8>) -> Option<Seq<u8>> {
    if flags & 0x04 == 0 {
        Some(b)
    } else {
        match read_int(b) {
            Some((_, rest)) => Some(rest),
            None => None,
        }
    }
}

/// What follows the paging state, if the flags announce one.
pub open spec fn after_paging_state(flags: u8, b: Seq<u8>) -> Option<Seq<u8>> {
    if flags & 0x08 == 0 {
        Some(b)
    } else {
        match int_bytes(b) {
            Some((_, rest)) => Some(rest),
            None => None,
        }
    }
}

/// What follows the serial consistency level, if the flags announce one.
pub open spec fn after_serial(flags: u8, b: Seq<u8>) -> Option<Seq<u8>> {
    if flags & 0x10 == 0 {
        Some(b)
    } else {
        match read_short(b) {
            Some((code, rest)) => if code == 0x0008 || code == 0x0009 {
                Some(rest)
            } else {
                None
            },
            None => None,
        }
    }
}

/// Whether the timestamp is there, if the flags announce one.
pub open spec fn has_timestamp(flags: u8, b: Seq<u8>) -> bool {
    flags & 0x20 == 0 || b.len() >= 8
}

/// Whether the parameters behind the bound values are well formed.
pub open spec fn params_tail(flags: u8, b: Seq<u8>) -> bool {
    match after_page_size(flags, b) {
        None => false,
        Some(b1) => match after_paging_state(flags, b1) {
            None => false,
            Some(b2) => match after_serial(flags, b2) {
                None => false,
                Some(b3) => has_timestamp(flags, b3),
            },
        },
    }
}

/// What the server reads in the parameters of a query.
#[verifier::ext_equal]
pub struct ParamsView {
    pub skip_metadata: bool,
    pub values: Seq<Option<Seq<u8>>>,
}

/// The parameters of a query: a consistency level, flags, and what the flags
/// announce. Values with names are not accepted.
pub open spec fn params(b: Seq<u8>) -> Option<ParamsView> {
    match read_short(b) {
        None => None,
        Some((code, rest)) => if !is_consistency(code) || rest.len() == 0 {
            None
        } else {
            let flags = rest[0];
            if flags & 0x80 != 0 || flags & 0x40 != 0 {
                None
            } else {
                match bound_values(flags, rest.skip(1)) {
                    None => None,
                    Some((values, tail)) => if params_tail(flags, tail) {
                        Some(ParamsView { skip_metadata: flags & 0x02 != 0, values })
                    } else {
                        None
                    },
                }
            }
        },
    }
}

/// Whether parameters break off behind the consistency level.
pub open spec fn params_cut(b: Seq<u8>) -> bool {
    b.len() == 2 && is_consistency(un_be(b))
}

/// The parameters of a query: whether the answer leaves the metadata out, and
/// the bound values, of which those that are null or unset have no bytes.
pub struct Params {
    pub skip_metadata: bool,
    pub values: Vec<Option<Vec<u8>>>,
}

/// Bound values.
pub open spec fn opt_values(values: Seq<Option<Vec<u8>>>) -> Seq<Option<Seq<u8>>> {
    values.map_values(
        |v: Option<Vec<u8>>|
            match v {
                Some(b) => Some(b@),
                None => None,
            },
    )
}

impl View for Params {
    type V = ParamsView;

    open spec fn view(&self) -> ParamsView {
        ParamsView { skip_metadata: self.skip_metadata, values: opt_values(self.values@) }
    }
}

/// `QueryParameters::deserialize` of `scylla_cql`: the parameters of a query.
/// It panics on parameters that break off behind the consistency level.
#[verifier::external_body]
pub(crate) fn read_params(buf: &[u8]) -> (r: Option<Params>)
    requires
        !params_cut(buf@),
    ensures
        match params(buf@) {
            Some(p) => r matches Some(x) && x@ == p,
            None => r is None,
        },
{
    let mut rest = buf;
    let p = QueryParameters::deserialize(&mut rest).ok()?;
    let values = p.values.iter().map(|v| v.as_value().map(|b| b.to_vec())).collect();
    Some(Params { skip_metadata: p.skip_metadata, values })
}

/// A `QUERY` message: a text and parameters.
pub open spec fn query_message(b: Seq<u8>) -> Option<(Seq<char>, ParamsView)> {
    match long_string(b) {
        None => None,
        Some((text, rest)) => match params(rest) {
            None => None,
            Some(p) => Some((text, p)),
        },
    }
}

/// Whether the parameters of a `QUERY` message break off.
pub open spec fn query_cut(b: Seq<u8>) -> bool {
    match long_string(b) {
        Some((_, rest)) => params_cut(rest),
        None => false,
    }
}

/// `Query::deserialize_with_features` of `scylla_cql`: the text and the
/// parameters of a `QUERY` message. It panics on parameters that break off
/// behind the consistency level.
#[verifier::external_body]
pub(crate) fn read_query(body: &[u8]) -> (r: Option<(String, Params)>)
    requires
        !query_cut(body@),
    ensures
        match query_message(body@) {
            Some((text, p)) => r matches Some(x) && x.0@ == text && x.1@ == p,
            None => r is None,
        },
{
    let mut rest = body;
    let q = Query::deserialize_with_features(&mut rest, &ProtocolFeatures::default()).ok()?;
    let values = q.parameters.values.iter().map(|v| v.as_value().map(|b| b.to_vec())).collect();
    Some((q.contents.to_string(), Params { skip_metadata: q.parameters.skip_metadata, values }))
}

/// Whether a text is short enough to be written behind a short.
pub open spec fn fits_short(s: Seq<char>) -> bool {
    encode_utf8(s).len() <= u16::MAX
}

/// A text behind its length, a short.
pub open spec fn string_bytes(s: Seq<char>) -> Seq<u8> {
    be16(encode_utf8(s).len() as u16) + encode_utf8(s)
}

/// `types::write_string` of `scylla_cql`: appends a text behind its length. It
/// reports an error for a text that is too long.
#[verifier::external_body]
pub(crate) fn write_string(v: &str, buf: &mut Vec<u8>)
    requires
        fits_short(v@),
    ensures
        final(buf)@ == old(buf)@ + string_bytes(v@),
{
    types::write_string(v, buf).expect("text too long");
}

/// `types::write_short_bytes` of `scylla_cql`: appends bytes behind their
/// length. It reports an error for more bytes than a short can count.
#[verifier::external_body]
pub(crate) fn write_short_bytes(v: &[u8], buf: &mut Vec<u8>)
    requires
        v@.len() <= u16::MAX,
    ensures
        final(buf)@ == old(buf)@ + (be16(v@.len() as u16) + v@),
{
    types::write_short_bytes(v, buf).expect("too many bytes");
}

/// An option and its values.
pub type OptionView = (Seq<char>, Seq<Seq<char>>);

pub open spec fn option_views(options: Seq<(String, Vec<String>)>) -> Seq<OptionView> {
    options.map_values(|o: (String, Vec<String>)| (o.0@, texts(o.1@)))
}

/// Texts, one behind the other.
pub open spec fn strings_bytes(v: Seq<Seq<char>>) -> Seq<u8>
    decreases v.len(),
{
    if v.len() == 0 {
        Seq::empty()
    } else {
        strings_bytes(v.drop_last()) + string_bytes(v.last())
    }
}

/// Options, one behind the other.
pub open spec fn options_bytes(v: Seq<OptionView>) -> Seq<u8>
    decreases v.len(),
{
    if v.len() == 0 {
        Seq::empty()
    } else {
        options_bytes(v.drop_last()) + (string_bytes(v.last().0) + be16(v.last().1.len() as u16)
            + strings_bytes(v.last().1))
    }
}

/// The options in some order, behind their number.
pub open spec fn is_multimap(b: Seq<u8>, options: Seq<OptionView>) -> bool {
    exists|order: Seq<OptionView>| #[trigger]
        order.to_multiset() == options.to_multiset() && b == be16(options.len() as u16)
            + options_bytes(order)
}

/// Whether options can be written: their names differ, and each text and each
/// number of texts fits.
pub open spec fn options_fit(options: Seq<OptionView>) -> bool {
    &&& options.len() <= u16::MAX
    &&& forall|i: int, j: int|
        0 <= i < j < options.len() ==> (#[trigger] options[i]).0 != (#[trigger] options[j]).0
    &&& forall|i: int|
        0 <= i < options.len() ==> fits_short((#[trigger] options[i]).0) && options[i].1.len()
            <= u16::MAX
    &&& forall|i: int, j: int|
        0 <= i < options.len() && 0 <= j < options[i].1.len() ==> fits_short(
            #[trigger] options[i].1[j],
        )
}

/// `types::write_string_multimap` of `scylla_cql`: the options of a map, in the
/// order in which a `HashMap` is walked, which can be any. The length does not
/// depend on the order.
#[verifier::external_body]
pub(crate) fn multimap_of(options: Vec<(String, Vec<String>)>) -> (b: Vec<u8>)
    requires
        options_fit(option_views(options@)),
    ensures
        is_multimap(b@, option_views(options@)),
        b@.len() == 2 + options_bytes(option_views(options@)).len(),
{
    let map: HashMap<String, Vec<String>> = options.into_iter().collect();
    let mut b = Vec::new();
    types::write_string_multimap(&map, &mut b).expect("options too long");
    b
}

/// What `compress_append` makes of a body.
pub uninterp spec fn compressed(body: Seq<u8>, algorithm: Compression) -> Seq<u8>;

/// What `decompress` makes of bytes, if it accepts them.
pub uninterp spec fn decompressed(bytes: Seq<u8>, algorithm: Compression) -> Option<Seq<u8>>;

/// Whether a body of `n` bytes can be compressed: Snappy counts what it may
/// write in 32 bits.
pub open spec fn compressible(n: nat, algorithm: Compression) -> bool {
    algorithm is Lz4 || 32 + n + n / 6 <= u32::MAX
}

/// `compress_append` of `scylla_cql`, into an empty buffer: fails on a body
/// that is too long for the algorithm. The result depends on the body and the
/// algorithm alone, and `decompress` makes the body of it again, as long as the
/// body's length is one that the format can hold.
#[verifier::external_body]
pub(crate) fn compress(body: &[u8], algorithm: Compression) -> (r: Option<Vec<u8>>)
    ensures
        r is Some == compressible(body@.len(), algorithm),
        r matches Some(out) ==> out@ == compressed(body@, algorithm),
        r matches Some(out) ==> body@.len() <= u32::MAX ==> decompressed(out@, algorithm) == Some(
            body@,
        ),
{
    let mut out = Vec::new();
    scylla_cql::frame::compress_append(body, algorithm, &mut out).ok().map(|_| out)
}

/// `decompress` of `scylla_cql`: what bytes were compressed from, or nothing
/// if they are not what the algorithm writes. It depends on the bytes and the
/// algorithm alone.
#[verifier::external_body]
pub(crate) fn decompress(bytes: &[u8], algorithm: Compression) -> (r: Option<Vec<u8>>)
    ensures
        match decompressed(bytes@, algorithm) {
            Some(body) => r matches Some(x) && x@ == body,
            None => r is None,
        },
{
    scylla_cql::frame::decompress(bytes, algorithm).ok()
}

} // verus!
