//! What a client reads in the answers of the server: the items of each body, one
//! after the other, in the notation of the native protocol.

use crate::bytes::{be16, be32, be_i32, be_len, lemma_be16_back, lemma_be16_of, lemma_be_len};
use crate::cql_value::{raw, wire, wire_all, ValueView};
use crate::error::{
    already_exists, internal, invalid, is_system, not_writable, protocol_violation, syntax,
    undefined_column, ErrorView,
};
use crate::expr::NamedType;
use crate::layout::{
    laid_out, law_type_options_are_listed, law_type_options_are_written, law_values_are_laid_out,
    lemma_length_spelt, lemma_powers, lemma_spells, lemma_spells_negative, lemma_twos_complement,
    option_name, spells,
};
use crate::prepare::{prepared_view, PreparedView};
use crate::protocol::{
    columns_bytes, error_body, frame_bytes, names_fit, payload, prepared_body, rows_body,
    rows_bytes, rows_metadata, says_supported, schema_change_body, server_options,
    set_keyspace_body, shorts_bytes, table_columns,
};
use crate::query::{no_table, ResponseView};
use crate::schema::{type_code, type_text, wire_type, ColumnType, TableView};
use crate::server::{
    finished, prepare_finished, prepared_under, session_changed, ConnectionView, PreparingView,
    RunningView, VERSION,
};
use crate::text::{decimal, lower_text};
use crate::wire::{
    compressed, fits_short, is_multimap, options_bytes, response_code, string_bytes,
    strings_bytes, OptionView,
};
use scylla_cql::frame::response::ResponseOpcode;
use scylla_cql::frame::Compression;
use vstd::prelude::*;
use vstd::seq_lib::{group_to_multiset_ensures, lemma_flatten_concat};
use vstd::utf8::{
    decode_utf8, encode_utf8, encode_utf8_decode_utf8, encode_utf8_valid_utf8,
    is_ascii_chars_encode_utf8, valid_utf8,
};

verus! {

/// An item of a body.
pub enum Item {
    /// A number in four bytes.
    Int(int),
    /// A number in two bytes.
    Short(int),
    /// A text behind its length in two bytes.
    Text(Seq<char>),
    /// Bytes behind their number in two bytes.
    Id(Seq<u8>),
    /// The option of a type.
    Type(ColumnType),
    /// A value behind its length in four bytes, which is -1 for null.
    Value(ValueView),
}

/// Whether the protocol lists a type under that option.
pub open spec fn is_option(t: ColumnType, option: int) -> bool {
    match t {
        ColumnType::Text => option_name(option) == "varchar"@,
        ColumnType::SetOf(_) => option_name(option) == "set"@,
        ColumnType::List(_) => option_name(option) == "list"@,
        ColumnType::MapOf(_, _) => option_name(option) == "map"@,
        _ => option_name(option) == type_text(t),
    }
}

/// Whether two bytes are the option of a type.
pub open spec fn names_type(b: Seq<u8>, t: ColumnType) -> bool {
    exists|option: int| #[trigger] is_option(t, option) && spells(b, 2, option)
}

/// Whether bytes announce a type: by its option, and a collection's by the
/// options of what it holds too.
pub open spec fn announces(b: Seq<u8>, t: ColumnType) -> bool {
    match t {
        ColumnType::SetOf(e) => b.len() == 4 && names_type(b.take(2), t) && names_type(
            b.skip(2),
            *e,
        ),
        ColumnType::List(e) => b.len() == 4 && names_type(b.take(2), t) && names_type(
            b.skip(2),
            *e,
        ),
        ColumnType::MapOf(k, e) => b.len() == 6 && names_type(b.take(2), t) && names_type(
            b.subrange(2, 4),
            *k,
        ) && names_type(b.skip(4), *e),
        _ => names_type(b, t),
    }
}

/// Whether bytes are an item.
pub open spec fn is_item(b: Seq<u8>, item: Item) -> bool {
    match item {
        Item::Int(v) => spells(b, 4, v),
        Item::Short(v) => spells(b, 2, v),
        Item::Text(s) => b.len() >= 2 && spells(b.take(2), 2, b.len() - 2) && valid_utf8(b.skip(2))
            && decode_utf8(b.skip(2)) == s,
        Item::Id(id) => b.len() >= 2 && spells(b.take(2), 2, b.len() - 2) && b.skip(2) == id,
        Item::Type(t) => announces(b, t),
        Item::Value(v) => if v is Null {
            spells(b, 4, -1)
        } else {
            b.len() >= 4 && spells(b.take(4), 4, b.len() - 4) && laid_out(v, b.skip(4))
        },
    }
}

/// Whether each part of some bytes is an item.
pub open spec fn are_items(parts: Seq<Seq<u8>>, items: Seq<Item>) -> bool {
    parts.len() == items.len() && forall|i: int|
        0 <= i < parts.len() ==> is_item(#[trigger] parts[i], items[i])
}

/// Whether a body consists of items.
pub open spec fn reads_as_items(b: Seq<u8>, items: Seq<Item>) -> bool {
    exists|parts: Seq<Seq<u8>>| #[trigger] are_items(parts, items) && b == parts.flatten()
}

proof fn lemma_one(b: Seq<u8>, item: Item)
    requires
        is_item(b, item),
    ensures
        reads_as_items(b, seq![item]),
{
    let parts = seq![b];
    parts.lemma_flatten_one_element();
    assert(are_items(parts, seq![item]));
}

proof fn lemma_none()
    ensures
        reads_as_items(Seq::empty(), Seq::empty()),
{
    let parts = Seq::<Seq<u8>>::empty();
    assert(are_items(parts, Seq::empty()));
    assert(parts.flatten() =~= Seq::empty());
}

proof fn lemma_both(a: Seq<u8>, xs: Seq<Item>, b: Seq<u8>, ys: Seq<Item>)
    requires
        reads_as_items(a, xs),
        reads_as_items(b, ys),
    ensures
        reads_as_items(a + b, xs + ys),
{
    let p = choose|p: Seq<Seq<u8>>| #[trigger] are_items(p, xs) && a == p.flatten();
    let q = choose|q: Seq<Seq<u8>>| #[trigger] are_items(q, ys) && b == q.flatten();
    lemma_flatten_concat(p, q);
    assert(are_items(p + q, xs + ys)) by {
        assert forall|i: int| 0 <= i < (p + q).len() implies is_item(
            #[trigger] (p + q)[i],
            (xs + ys)[i],
        ) by {
            if i < p.len() {
                assert(is_item(p[i], xs[i]));
            } else {
                assert(is_item(q[i - p.len()], ys[i - p.len()]));
            }
        }
    }
}

proof fn lemma_then(a: Seq<u8>, xs: Seq<Item>, b: Seq<u8>, item: Item)
    requires
        reads_as_items(a, xs),
        is_item(b, item),
    ensures
        reads_as_items(a + b, xs.push(item)),
{
    lemma_one(b, item);
    lemma_both(a, xs, b, seq![item]);
    assert(xs + seq![item] =~= xs.push(item));
}

proof fn lemma_int_item(n: nat)
    requires
        n <= i32::MAX,
    ensures
        is_item(be_len(n), Item::Int(n as int)),
        be_i32(n as i32) == be_len(n),
{
    lemma_length_spelt(n);
}

proof fn lemma_short_item(v: u16)
    ensures
        is_item(be16(v), Item::Short(v as int)),
{
    lemma_spells(v as nat, 2);
}

proof fn lemma_text_item(s: Seq<char>)
    requires
        fits_short(s),
    ensures
        is_item(string_bytes(s), Item::Text(s)),
{
    let raw = encode_utf8(s);
    let b = string_bytes(s);
    lemma_spells(raw.len(), 2);
    encode_utf8_valid_utf8(s);
    encode_utf8_decode_utf8(s);
    assert(b.take(2) =~= be16(raw.len() as u16));
    assert(b.skip(2) =~= raw);
}

proof fn lemma_id_item(id: Seq<u8>)
    requires
        id.len() <= u16::MAX,
    ensures
        is_item(be16(id.len() as u16) + id, Item::Id(id)),
{
    let b = be16(id.len() as u16) + id;
    lemma_spells(id.len(), 2);
    assert(b.take(2) =~= be16(id.len() as u16));
    assert(b.skip(2) =~= id);
}

proof fn lemma_names_type(b: Seq<u8>, t: ColumnType)
    requires
        spells(b, 2, type_code(t) as int),
    ensures
        names_type(b, t),
{
    law_type_options_are_listed(t);
    assert(is_option(t, type_code(t) as int));
}

proof fn lemma_type_item(t: ColumnType)
    ensures
        is_item(wire_type(t), Item::Type(t)),
{
    let b = wire_type(t);
    law_type_options_are_written(t);
    lemma_names_type(b.take(2), t);
    match t {
        ColumnType::SetOf(e) => lemma_names_type(b.skip(2), *e),
        ColumnType::List(e) => lemma_names_type(b.skip(2), *e),
        ColumnType::MapOf(k, e) => {
            lemma_names_type(b.subrange(2, 4), *k);
            lemma_names_type(b.skip(4), *e);
        },
        _ => assert(b.take(2) =~= b),
    }
}

proof fn lemma_value_item(v: ValueView)
    requires
        raw(v).len() <= i32::MAX,
    ensures
        is_item(wire(v), Item::Value(v)),
{
    law_values_are_laid_out(v);
}

/// The items of columns: of each the name, then the type.
pub open spec fn column_items(cols: Seq<NamedType>) -> Seq<Item> {
    Seq::new(
        2 * cols.len(),
        |k: int|
            if k % 2 == 0 {
                Item::Text(cols[k / 2].0)
            } else {
                Item::Type(cols[k / 2].1)
            },
    )
}

proof fn lemma_columns(cols: Seq<NamedType>)
    requires
        names_fit(cols),
    ensures
        reads_as_items(columns_bytes(cols), column_items(cols)),
    decreases cols.len(),
{
    if cols.len() == 0 {
        lemma_none();
        assert(column_items(cols) =~= Seq::empty());
    } else {
        let front = cols.drop_last();
        let c = cols.last();
        assert forall|i: int| 0 <= i < front.len() implies fits_short((#[trigger] front[i]).0) by {
            assert(front[i] == cols[i]);
        }
        lemma_columns(front);
        lemma_text_item(c.0);
        lemma_type_item(c.1);
        let a = columns_bytes(front);
        lemma_then(a, column_items(front), string_bytes(c.0), Item::Text(c.0));
        lemma_then(
            a + string_bytes(c.0),
            column_items(front).push(Item::Text(c.0)),
            wire_type(c.1),
            Item::Type(c.1),
        );
        assert(columns_bytes(cols) =~= a + string_bytes(c.0) + wire_type(c.1));
        assert(column_items(cols) =~= column_items(front).push(Item::Text(c.0)).push(
            Item::Type(c.1),
        ));
    }
}

/// The items of short numbers.
pub open spec fn short_items(v: Seq<u16>) -> Seq<Item> {
    v.map_values(|x: u16| Item::Short(x as int))
}

proof fn lemma_shorts(v: Seq<u16>)
    ensures
        reads_as_items(shorts_bytes(v), short_items(v)),
    decreases v.len(),
{
    if v.len() == 0 {
        lemma_none();
        assert(short_items(v) =~= Seq::empty());
    } else {
        let front = v.drop_last();
        lemma_shorts(front);
        lemma_short_item(v.last());
        lemma_then(
            shorts_bytes(front),
            short_items(front),
            be16(v.last()),
            Item::Short(v.last() as int),
        );
        assert(short_items(v) =~= short_items(front).push(Item::Short(v.last() as int)));
    }
}

/// The items of a row.
pub open spec fn row_items(row: Seq<ValueView>) -> Seq<Item> {
    row.map_values(|v: ValueView| Item::Value(v))
}

/// Whether the values of a row have lengths that four bytes can hold.
pub open spec fn row_fits(row: Seq<ValueView>) -> bool {
    forall|i: int| 0 <= i < row.len() ==> raw(#[trigger] row[i]).len() <= i32::MAX
}

proof fn lemma_row(row: Seq<ValueView>)
    requires
        row_fits(row),
    ensures
        reads_as_items(wire_all(row), row_items(row)),
    decreases row.len(),
{
    if row.len() == 0 {
        lemma_none();
        assert(row_items(row) =~= Seq::empty());
    } else {
        let front = row.drop_last();
        let v = row.last();
        assert(raw(row[row.len() - 1]).len() <= i32::MAX);
        assert forall|i: int| 0 <= i < front.len() implies raw(#[trigger] front[i]).len()
            <= i32::MAX by {
            assert(front[i] == row[i]);
        }
        lemma_row(front);
        lemma_value_item(v);
        lemma_then(wire_all(front), row_items(front), wire(v), Item::Value(v));
        assert(row_items(row) =~= row_items(front).push(Item::Value(v)));
    }
}

/// The items of rows, one row after the other.
pub open spec fn rows_items(rows: Seq<Seq<ValueView>>) -> Seq<Item> {
    rows.map_values(|row: Seq<ValueView>| row_items(row)).flatten()
}

/// Whether the values of rows have lengths that four bytes can hold, and the
/// number of rows too.
pub open spec fn rows_fit(rows: Seq<Seq<ValueView>>) -> bool {
    rows.len() <= i32::MAX && forall|i: int| 0 <= i < rows.len() ==> row_fits(#[trigger] rows[i])
}

proof fn lemma_rows(rows: Seq<Seq<ValueView>>)
    requires
        rows_fit(rows),
    ensures
        reads_as_items(rows_bytes(rows), rows_items(rows)),
    decreases rows.len(),
{
    let f = |row: Seq<ValueView>| row_items(row);
    if rows.len() == 0 {
        lemma_none();
        assert(rows_items(rows) =~= Seq::empty());
    } else {
        let front = rows.drop_last();
        assert forall|i: int| 0 <= i < front.len() implies row_fits(#[trigger] front[i]) by {
            assert(front[i] == rows[i]);
        }
        lemma_rows(front);
        assert(row_fits(rows[rows.len() - 1]));
        lemma_row(rows.last());
        lemma_both(
            rows_bytes(front),
            rows_items(front),
            wire_all(rows.last()),
            row_items(rows.last()),
        );
        front.map_values(f).lemma_flatten_push(row_items(rows.last()));
        assert(rows.map_values(f) =~= front.map_values(f).push(row_items(rows.last())));
    }
}

/// The items of the columns of a table: the names of the keyspace and of the
/// table, then the columns.
pub open spec fn table_items(
    keyspace: Seq<char>,
    table: Seq<char>,
    cols: Seq<NamedType>,
) -> Seq<Item> {
    seq![Item::Text(keyspace), Item::Text(table)] + column_items(cols)
}

proof fn lemma_table(keyspace: Seq<char>, table: Seq<char>, cols: Seq<NamedType>)
    requires
        fits_short(keyspace),
        fits_short(table),
        names_fit(cols),
    ensures
        reads_as_items(
            table_columns(keyspace, table, cols),
            table_items(keyspace, table, cols),
        ),
{
    lemma_text_item(keyspace);
    lemma_text_item(table);
    lemma_one(string_bytes(keyspace), Item::Text(keyspace));
    lemma_then(
        string_bytes(keyspace),
        seq![Item::Text(keyspace)],
        string_bytes(table),
        Item::Text(table),
    );
    lemma_columns(cols);
    assert(seq![Item::Text(keyspace)].push(Item::Text(table)) =~= seq![
        Item::Text(keyspace),
        Item::Text(table),
    ]);
    lemma_both(
        string_bytes(keyspace) + string_bytes(table),
        seq![Item::Text(keyspace), Item::Text(table)],
        columns_bytes(cols),
        column_items(cols),
    );
}

/// The items of an answer with rows: that it is one, the columns with the names
/// of their keyspace and table (or, without metadata, a flag and -1 in place of
/// them), the number of rows, and the rows.
pub open spec fn rows_answer(
    keyspace: Seq<char>,
    table: Seq<char>,
    cols: Seq<NamedType>,
    rows: Seq<Seq<ValueView>>,
    skip_metadata: bool,
) -> Seq<Item> {
    (if skip_metadata {
        seq![Item::Int(2), Item::Int(0), Item::Int(-1)]
    } else {
        seq![Item::Int(2), Item::Int(1), Item::Int(cols.len() as int)] + table_items(
            keyspace,
            table,
            cols,
        )
    }).push(Item::Int(rows.len() as int)) + rows_items(rows)
}

/// A client reads in an answer with rows the columns and the rows that the
/// statement gave.
pub proof fn law_rows_are_read(
    keyspace: Seq<char>,
    table: Seq<char>,
    cols: Seq<NamedType>,
    rows: Seq<Seq<ValueView>>,
    skip_metadata: bool,
)
    requires
        skip_metadata || fits_short(keyspace) && fits_short(table) && names_fit(cols),
        cols.len() <= i32::MAX,
        rows_fit(rows),
    ensures
        reads_as_items(
            rows_body(keyspace, table, cols, rows, skip_metadata),
            rows_answer(keyspace, table, cols, rows, skip_metadata),
        ),
{
    let kind = be_i32(0x0002);
    let meta = rows_metadata(keyspace, table, cols, skip_metadata);
    lemma_int_item(2);
    lemma_int_item(1);
    lemma_int_item(0);
    lemma_int_item(rows.len());
    lemma_one(kind, Item::Int(2));
    let head = if skip_metadata {
        seq![Item::Int(2), Item::Int(0), Item::Int(-1)]
    } else {
        seq![Item::Int(2), Item::Int(1), Item::Int(cols.len() as int)] + table_items(
            keyspace,
            table,
            cols,
        )
    };
    assert(reads_as_items(kind + meta, head)) by {
        if skip_metadata {
            law_values_are_laid_out(ValueView::Null);
            assert(is_item(be_i32((-1) as i32), Item::Int(-1)));
            lemma_then(kind, seq![Item::Int(2)], be_i32(0x0000), Item::Int(0));
            lemma_then(
                kind + be_i32(0x0000),
                seq![Item::Int(2)].push(Item::Int(0)),
                be_i32((-1) as i32),
                Item::Int(-1),
            );
            assert(kind + meta =~= kind + be_i32(0x0000) + be_i32((-1) as i32));
            assert(head =~= seq![Item::Int(2)].push(Item::Int(0)).push(Item::Int(-1)));
        } else {
            let n = be_len(cols.len());
            let tail = table_columns(keyspace, table, cols);
            lemma_int_item(cols.len());
            lemma_table(keyspace, table, cols);
            lemma_then(kind, seq![Item::Int(2)], be_i32(0x0001), Item::Int(1));
            lemma_then(
                kind + be_i32(0x0001),
                seq![Item::Int(2)].push(Item::Int(1)),
                n,
                Item::Int(cols.len() as int),
            );
            assert(seq![Item::Int(2)].push(Item::Int(1)).push(Item::Int(cols.len() as int))
                =~= seq![Item::Int(2), Item::Int(1), Item::Int(cols.len() as int)]);
            lemma_both(
                kind + be_i32(0x0001) + n,
                seq![Item::Int(2), Item::Int(1), Item::Int(cols.len() as int)],
                tail,
                table_items(keyspace, table, cols),
            );
            assert(kind + meta =~= kind + be_i32(0x0001) + n + tail);
        }
    }
    lemma_then(kind + meta, head, be_len(rows.len()), Item::Int(rows.len() as int));
    lemma_rows(rows);
    lemma_both(
        kind + meta + be_len(rows.len()),
        head.push(Item::Int(rows.len() as int)),
        rows_bytes(rows),
        rows_items(rows),
    );
}

/// A client reads in an error its code and its message.
pub proof fn law_errors_are_read(code: i32, message: Seq<char>)
    requires
        code >= 0,
        fits_short(message),
    ensures
        reads_as_items(
            error_body(code, message),
            seq![Item::Int(code as int), Item::Text(message)],
        ),
{
    lemma_int_item(code as nat);
    lemma_text_item(message);
    lemma_one(be_i32(code), Item::Int(code as int));
    lemma_then(
        be_i32(code),
        seq![Item::Int(code as int)],
        string_bytes(message),
        Item::Text(message),
    );
    assert(seq![Item::Int(code as int)].push(Item::Text(message)) =~= seq![
        Item::Int(code as int),
        Item::Text(message),
    ]);
}

/// The items of an answer to `PREPARE`: that it is one, the id, the columns that
/// the markers stand for with the places of the key among them, and the columns
/// of the result.
pub open spec fn prepared_items(id: Seq<u8>, info: PreparedView) -> Seq<Item> {
    seq![
        Item::Int(4),
        Item::Id(id),
        Item::Int(1),
        Item::Int(info.bind_specs.len() as int),
        Item::Int(info.pk_indexes.len() as int),
    ] + short_items(info.pk_indexes) + table_items(info.keyspace, info.table, info.bind_specs)
        + seq![Item::Int(1), Item::Int(info.result_cols.len() as int)] + table_items(
        info.keyspace,
        info.table,
        info.result_cols,
    )
}

/// A client reads in the answer to `PREPARE` the id of the statement, the columns
/// of its markers and those of its result.
pub proof fn law_prepared_is_read(id: Seq<u8>, info: PreparedView)
    requires
        id.len() <= u16::MAX,
        fits_short(info.keyspace),
        fits_short(info.table),
        names_fit(info.bind_specs),
        names_fit(info.result_cols),
        info.bind_specs.len() <= i32::MAX,
        info.pk_indexes.len() <= i32::MAX,
        info.result_cols.len() <= i32::MAX,
    ensures
        reads_as_items(
            prepared_body(
                id,
                info.keyspace,
                info.table,
                info.bind_specs,
                info.pk_indexes,
                info.result_cols,
            ),
            prepared_items(id, info),
        ),
{
    let shown_id = be16(id.len() as u16) + id;
    let n = info.bind_specs.len();
    let m = info.pk_indexes.len();
    let w = info.result_cols.len();
    lemma_int_item(4);
    lemma_int_item(1);
    lemma_id_item(id);
    lemma_int_item(n);
    lemma_int_item(m);
    lemma_int_item(w);
    let b0 = be_i32(0x0004);
    let i0 = seq![Item::Int(4)];
    lemma_one(b0, Item::Int(4));
    lemma_then(b0, i0, shown_id, Item::Id(id));
    let b1 = b0 + shown_id;
    let i1 = i0.push(Item::Id(id));
    lemma_then(b1, i1, be_i32(0x0001), Item::Int(1));
    let b2 = b1 + be_i32(0x0001);
    let i2 = i1.push(Item::Int(1));
    lemma_then(b2, i2, be_len(n), Item::Int(n as int));
    let b3 = b2 + be_len(n);
    let i3 = i2.push(Item::Int(n as int));
    lemma_then(b3, i3, be_len(m), Item::Int(m as int));
    let b4 = b3 + be_len(m);
    let i4 = i3.push(Item::Int(m as int));
    assert(i4 =~= seq![
        Item::Int(4),
        Item::Id(id),
        Item::Int(1),
        Item::Int(n as int),
        Item::Int(m as int),
    ]);
    lemma_shorts(info.pk_indexes);
    lemma_both(b4, i4, shorts_bytes(info.pk_indexes), short_items(info.pk_indexes));
    let b5 = b4 + shorts_bytes(info.pk_indexes);
    let i5 = i4 + short_items(info.pk_indexes);
    lemma_table(info.keyspace, info.table, info.bind_specs);
    let t1 = table_columns(info.keyspace, info.table, info.bind_specs);
    let j1 = table_items(info.keyspace, info.table, info.bind_specs);
    lemma_both(b5, i5, t1, j1);
    let b6 = b5 + t1;
    let i6 = i5 + j1;
    lemma_then(b6, i6, be_i32(0x0001), Item::Int(1));
    lemma_then(
        b6 + be_i32(0x0001),
        i6.push(Item::Int(1)),
        be_len(w),
        Item::Int(w as int),
    );
    let b7 = b6 + be_i32(0x0001) + be_len(w);
    let i7 = i6 + seq![Item::Int(1), Item::Int(w as int)];
    assert(i6.push(Item::Int(1)).push(Item::Int(w as int)) =~= i7);
    lemma_table(info.keyspace, info.table, info.result_cols);
    lemma_both(
        b7,
        i7,
        table_columns(info.keyspace, info.table, info.result_cols),
        table_items(info.keyspace, info.table, info.result_cols),
    );
}

/// The items of the answer to a statement.
pub open spec fn answer_items(response: ResponseView, skip_metadata: bool) -> Seq<Item> {
    match response {
        ResponseView::Void => seq![Item::Int(1)],
        ResponseView::Rows { keyspace, table, cols, rows } => rows_answer(
            keyspace,
            table,
            cols,
            rows,
            skip_metadata,
        ),
        ResponseView::SetKeyspace(keyspace) => seq![Item::Int(3), Item::Text(keyspace)],
        ResponseView::SchemaChange { change, target, keyspace, table } => seq![
            Item::Int(5),
            Item::Text(change),
            Item::Text(target),
            Item::Text(keyspace),
            Item::Text(table),
        ],
    }
}

/// Whether the texts and the numbers of an answer fit what is written before them.
pub open spec fn answer_fits(response: ResponseView, skip_metadata: bool) -> bool {
    match response {
        ResponseView::Void => true,
        ResponseView::Rows { keyspace, table, cols, rows } => {
            &&& skip_metadata || fits_short(keyspace) && fits_short(table) && names_fit(cols)
            &&& cols.len() <= i32::MAX
            &&& rows_fit(rows)
        },
        ResponseView::SetKeyspace(keyspace) => fits_short(keyspace),
        ResponseView::SchemaChange { change, target, keyspace, table } => fits_short(change)
            && fits_short(target) && fits_short(keyspace) && fits_short(table),
    }
}

/// Whether bytes are a frame of the server: version 4 with the mark of an answer,
/// a flag where the body is compressed, the stream, the opcode, and the body
/// behind its length.
pub open spec fn is_frame(
    b: Seq<u8>,
    stream: i16,
    opcode: int,
    compression: Option<Compression>,
    body: Seq<u8>,
) -> bool {
    let sent = match compression {
        Some(algorithm) => compressed(body, algorithm),
        None => body,
    };
    &&& b.len() == 9 + sent.len()
    &&& b[0] == 0x84
    &&& b[1] == if compression is Some {
        1u8
    } else {
        0u8
    }
    &&& spells(b.subrange(2, 4), 2, stream as int)
    &&& b[4] == opcode
    &&& spells(b.subrange(5, 9), 4, sent.len() as int)
    &&& b.skip(9) == sent
}

/// Whether bytes are a frame of the server with these items in its body.
pub open spec fn says(
    b: Seq<u8>,
    stream: i16,
    opcode: int,
    compression: Option<Compression>,
    items: Seq<Item>,
) -> bool {
    exists|body: Seq<u8>| #[trigger]
        reads_as_items(body, items) && is_frame(b, stream, opcode, compression, body)
}

pub proof fn lemma_frame(
    stream: i16,
    opcode: ResponseOpcode,
    body: Seq<u8>,
    compression: Option<Compression>,
)
    requires
        frame_bytes(VERSION, stream, opcode, body, compression).len() <= u32::MAX,
    ensures
        ({
            let b = frame_bytes(VERSION, stream, opcode, body, compression);
            is_frame(b, stream, response_code(opcode) as int, compression, body)
        }),
{
    let sent = payload(body, compression);
    let b = frame_bytes(VERSION, stream, opcode, body, compression);
    lemma_powers();
    lemma_twos_complement(0, stream, 0, 0);
    lemma_spells_negative((stream as u16) as nat, 2, stream as int);
    lemma_be_len(sent.len(), 4);
    lemma_spells(sent.len(), 4);
    assert(0x04u8 | 0x80 == 0x84) by (bit_vector);
    assert(b.subrange(2, 4) =~= be16(stream as u16));
    assert(b.subrange(5, 9) =~= be32(sent.len() as u32));
    assert(b.skip(9) =~= sent);
}

/// A statement that succeeded is answered with a result that says, on the stream
/// of the request, what the statement gave; one that was refused with an error
/// that says the code and the message.
pub proof fn law_statements_are_answered(
    c: ConnectionView,
    stream: i16,
    r: RunningView,
    result: Result<ResponseView, ErrorView>,
)
    requires
        match result {
            Ok(response) => answer_fits(response, r.skip_metadata),
            Err(e) => e.code >= 0 && fits_short(e.message),
        },
    ensures
        r.compression is None ==> finished(c, stream, r, result) is Some,
        finished(c, stream, r, result) matches Some(b) ==> b.len() <= u32::MAX ==> match result {
            Ok(response) => says(
                b,
                stream,
                0x08,
                r.compression,
                answer_items(response, r.skip_metadata),
            ),
            Err(e) => says(
                b,
                stream,
                0x00,
                c.compression,
                seq![Item::Int(e.code as int), Item::Text(e.message)],
            ),
        },
{
    match result {
        Err(e) => {
            law_errors_are_read(e.code, e.message);
            let body = error_body(e.code, e.message);
            if let Some(b) = finished(c, stream, r, result) {
                if b.len() <= u32::MAX {
                    lemma_frame(stream, ResponseOpcode::Error, body, c.compression);
                    assert(reads_as_items(
                        body,
                        seq![Item::Int(e.code as int), Item::Text(e.message)],
                    ));
                }
            }
        },
        Ok(response) => {
            let items = answer_items(response, r.skip_metadata);
            let body = match response {
                ResponseView::Void => be_i32(0x0001),
                ResponseView::Rows { keyspace, table, cols, rows } => rows_body(
                    keyspace,
                    table,
                    cols,
                    rows,
                    r.skip_metadata,
                ),
                ResponseView::SetKeyspace(ks) => set_keyspace_body(ks),
                ResponseView::SchemaChange { change, target, keyspace, table } =>
                    schema_change_body(change, target, keyspace, table),
            };
            assert(reads_as_items(body, items)) by {
                match response {
                    ResponseView::Void => {
                        lemma_int_item(1);
                        lemma_one(body, Item::Int(1));
                    },
                    ResponseView::Rows { keyspace, table, cols, rows } => {
                        law_rows_are_read(keyspace, table, cols, rows, r.skip_metadata);
                    },
                    ResponseView::SetKeyspace(ks) => {
                        lemma_int_item(3);
                        lemma_text_item(ks);
                        lemma_one(be_i32(0x0003), Item::Int(3));
                        lemma_then(
                            be_i32(0x0003),
                            seq![Item::Int(3)],
                            string_bytes(ks),
                            Item::Text(ks),
                        );
                        assert(items =~= seq![Item::Int(3)].push(Item::Text(ks)));
                    },
                    ResponseView::SchemaChange { change, target, keyspace, table } => {
                        lemma_schema_change(change, target, keyspace, table);
                    },
                }
            }
            if let Some(b) = finished(c, stream, r, result) {
                if b.len() <= u32::MAX {
                    lemma_frame(stream, ResponseOpcode::Result, body, r.compression);
                }
            }
        },
    }
}

proof fn lemma_schema_change(
    change: Seq<char>,
    target: Seq<char>,
    keyspace: Seq<char>,
    table: Seq<char>,
)
    requires
        fits_short(change),
        fits_short(target),
        fits_short(keyspace),
        fits_short(table),
    ensures
        reads_as_items(
            schema_change_body(change, target, keyspace, table),
            seq![
                Item::Int(5),
                Item::Text(change),
                Item::Text(target),
                Item::Text(keyspace),
                Item::Text(table),
            ],
        ),
{
    lemma_int_item(5);
    lemma_text_item(change);
    lemma_text_item(target);
    lemma_text_item(keyspace);
    lemma_text_item(table);
    let b0 = be_i32(0x0005);
    let i0 = seq![Item::Int(5)];
    lemma_one(b0, Item::Int(5));
    lemma_then(b0, i0, string_bytes(change), Item::Text(change));
    let b1 = b0 + string_bytes(change);
    let i1 = i0.push(Item::Text(change));
    lemma_then(b1, i1, string_bytes(target), Item::Text(target));
    let b2 = b1 + string_bytes(target);
    let i2 = i1.push(Item::Text(target));
    lemma_then(b2, i2, string_bytes(keyspace), Item::Text(keyspace));
    let b3 = b2 + string_bytes(keyspace);
    let i3 = i2.push(Item::Text(keyspace));
    lemma_then(b3, i3, string_bytes(table), Item::Text(table));
    assert(i3.push(Item::Text(table)) =~= seq![
        Item::Int(5),
        Item::Text(change),
        Item::Text(target),
        Item::Text(keyspace),
        Item::Text(table),
    ]);
}

/// A `PREPARE` is answered with what was found of the statement, under an id
/// under which the connection then holds the statement and the types of its
/// markers, beside the statements that it held under other ids.
pub proof fn law_prepare_is_answered(
    c: ConnectionView,
    stream: i16,
    p: PreparingView,
    found: Result<Option<TableView>, Seq<char>>,
    info: PreparedView,
)
    requires
        prepared_view(p.stmt, p.keyspace, p.table, found) == Ok::<PreparedView, ErrorView>(info),
        fits_short(info.keyspace),
        fits_short(info.table),
        names_fit(info.bind_specs),
        names_fit(info.result_cols),
        info.bind_specs.len() <= i32::MAX,
        info.pk_indexes.len() <= i32::MAX,
        info.result_cols.len() <= i32::MAX,
    ensures
        ({
            let (out, after) = prepare_finished(c, stream, p, found);
            let id = be16(c.next_prepared_id);
            &&& p.compression is None ==> out is Some
            &&& out matches Some(b) ==> b.len() <= u32::MAX ==> says(
                b,
                stream,
                0x08,
                p.compression,
                prepared_items(id, info),
            )
            &&& prepared_under(after, id) matches Some(held) && held.stmt == p.stmt
                && held.bind_types.len() == info.bind_specs.len() && forall|k: int|
                0 <= k < info.bind_specs.len() ==> #[trigger] held.bind_types[k]
                    == info.bind_specs[k].1
            &&& forall|other: Seq<u8>|
                other != id ==> #[trigger] prepared_under(after, other) == prepared_under(c, other)
            &&& after.keyspace == c.keyspace
            &&& after.compression == c.compression
        }),
{
    let (out, after) = prepare_finished(c, stream, p, found);
    let id = be16(c.next_prepared_id);
    lemma_be16_back(c.next_prepared_id);
    law_prepared_is_read(id, info);
    if let Some(b) = out {
        if b.len() <= u32::MAX {
            let body = prepared_body(
                id,
                info.keyspace,
                info.table,
                info.bind_specs,
                info.pk_indexes,
                info.result_cols,
            );
            lemma_frame(stream, ResponseOpcode::Result, body, p.compression);
            assert(reads_as_items(body, prepared_items(id, info)));
        }
    }
    assert forall|other: Seq<u8>| other != id implies #[trigger] prepared_under(after, other)
        == prepared_under(c, other) by {
        if other.len() == 2 {
            lemma_be16_of(other);
        }
    }
}

/// The session moves to the keyspace that a statement set, where the request may
/// set it, and nothing else of a connection changes with an outcome.
pub proof fn law_session_follows_use(
    c: ConnectionView,
    sets_keyspace: bool,
    result: Result<ResponseView, ErrorView>,
)
    ensures
        ({
            let after = session_changed(c, sets_keyspace, result);
            &&& after.prepared == c.prepared
            &&& after.compression == c.compression
            &&& after.next_prepared_id == c.next_prepared_id
            &&& sets_keyspace && result is Ok && result->Ok_0 is SetKeyspace ==> after.keyspace
                == Some(result->Ok_0->SetKeyspace_0)
            &&& !(sets_keyspace && result is Ok && result->Ok_0 is SetKeyspace) ==> after.keyspace
                == c.keyspace
        }),
{
}

/// The name under which the native protocol lists an error code.
pub open spec fn code_name(code: int) -> Seq<char> {
    if code == 0x0000 {
        "Server error"@
    } else if code == 0x000A {
        "Protocol error"@
    } else if code == 0x0100 {
        "Authentication error"@
    } else if code == 0x2000 {
        "Syntax_error"@
    } else if code == 0x2100 {
        "Unauthorized"@
    } else if code == 0x2200 {
        "Invalid"@
    } else if code == 0x2300 {
        "Config_error"@
    } else if code == 0x2400 {
        "Already_exists"@
    } else if code == 0x2500 {
        "Unprepared"@
    } else {
        "Other"@
    }
}

/// The codes of the errors are those that the protocol lists for them, and a
/// client sees the reason in the message.
pub proof fn law_error_codes_are_listed(reason: Seq<char>, name: Seq<char>)
    ensures
        code_name(syntax(reason).code as int) == "Syntax_error"@,
        code_name(invalid(reason).code as int) == "Invalid"@,
        code_name(already_exists(reason, name).code as int) == "Already_exists"@,
        code_name(internal(reason).code as int) == "Server error"@,
        code_name(protocol_violation(reason).code as int) == "Protocol error"@,
        syntax(reason).message == reason,
        invalid(reason).message == reason,
        protocol_violation(reason).message == reason,
        reason.is_suffix_of(internal(reason).message),
        reason.is_prefix_of(already_exists(reason, name).message),
{
    let e = internal(reason).message;
    assert(e.subrange(e.len() - reason.len(), e.len() as int) =~= reason);
    let a = already_exists(reason, name).message;
    assert(a.subrange(0, reason.len() as int) =~= reason);
}

/// The items of options: of each the name, the number of its values, and the
/// values.
pub open spec fn option_items(options: Seq<OptionView>) -> Seq<Item>
    decreases options.len(),
{
    if options.len() == 0 {
        Seq::empty()
    } else {
        let o = options.last();
        option_items(options.drop_last()) + seq![Item::Text(o.0), Item::Short(o.1.len() as int)]
            + o.1.map_values(|v: Seq<char>| Item::Text(v))
    }
}

proof fn lemma_strings(v: Seq<Seq<char>>)
    requires
        forall|i: int| 0 <= i < v.len() ==> fits_short(#[trigger] v[i]),
    ensures
        reads_as_items(strings_bytes(v), v.map_values(|x: Seq<char>| Item::Text(x))),
    decreases v.len(),
{
    let f = |x: Seq<char>| Item::Text(x);
    if v.len() == 0 {
        lemma_none();
        assert(v.map_values(f) =~= Seq::empty());
    } else {
        let front = v.drop_last();
        assert forall|i: int| 0 <= i < front.len() implies fits_short(#[trigger] front[i]) by {
            assert(front[i] == v[i]);
        }
        lemma_strings(front);
        assert(fits_short(v[v.len() - 1]));
        lemma_text_item(v.last());
        lemma_then(
            strings_bytes(front),
            front.map_values(f),
            string_bytes(v.last()),
            Item::Text(v.last()),
        );
        assert(v.map_values(f) =~= front.map_values(f).push(Item::Text(v.last())));
    }
}

proof fn lemma_options(options: Seq<OptionView>)
    requires
        each_option_fits(options),
    ensures
        reads_as_items(options_bytes(options), option_items(options)),
    decreases options.len(),
{
    if options.len() == 0 {
        lemma_none();
    } else {
        let front = options.drop_last();
        let o = options.last();
        assert(option_fits(options[options.len() - 1]));
        assert forall|i: int| 0 <= i < front.len() implies option_fits(#[trigger] front[i]) by {
            assert(front[i] == options[i]);
        }
        lemma_options(front);
        lemma_text_item(o.0);
        lemma_short_item(o.1.len() as u16);
        lemma_strings(o.1);
        let a = options_bytes(front);
        let xs = option_items(front);
        lemma_then(a, xs, string_bytes(o.0), Item::Text(o.0));
        lemma_then(
            a + string_bytes(o.0),
            xs.push(Item::Text(o.0)),
            be16(o.1.len() as u16),
            Item::Short(o.1.len() as int),
        );
        let head = xs + seq![Item::Text(o.0), Item::Short(o.1.len() as int)];
        assert(xs.push(Item::Text(o.0)).push(Item::Short(o.1.len() as int)) =~= head);
        lemma_both(
            a + string_bytes(o.0) + be16(o.1.len() as u16),
            head,
            strings_bytes(o.1),
            o.1.map_values(|v: Seq<char>| Item::Text(v)),
        );
        assert(options_bytes(options) =~= a + string_bytes(o.0) + be16(o.1.len() as u16)
            + strings_bytes(o.1));
    }
}

/// Whether the texts of an option fit, and their number.
pub open spec fn option_fits(o: OptionView) -> bool {
    &&& fits_short(o.0)
    &&& o.1.len() <= u16::MAX
    &&& forall|i: int| 0 <= i < o.1.len() ==> fits_short(#[trigger] o.1[i])
}

/// Whether the texts of every option fit, and their number.
pub open spec fn each_option_fits(options: Seq<OptionView>) -> bool {
    forall|i: int| 0 <= i < options.len() ==> option_fits(#[trigger] options[i])
}

/// Whether an option has these values.
pub open spec fn offers(options: Seq<OptionView>, name: Seq<char>, values: Seq<Seq<char>>) -> bool {
    exists|i: int| 0 <= i < options.len() && #[trigger] options[i] == (name, values)
}

proof fn lemma_options_fit()
    ensures
        server_options().len() == 3,
        option_fits(server_options()[0]),
        option_fits(server_options()[1]),
        option_fits(server_options()[2]),
        decimal(VERSION as nat) == "4"@,
{
    reveal_strlit("CQL_VERSION");
    reveal_strlit("COMPRESSION");
    reveal_strlit("PROTOCOL_VERSIONS");
    reveal_strlit("3.4.5");
    reveal_strlit("lz4");
    reveal_strlit("snappy");
    reveal_strlit("4");
    assert(decimal(4) =~= "4"@);
    is_ascii_chars_encode_utf8("CQL_VERSION"@);
    is_ascii_chars_encode_utf8("COMPRESSION"@);
    is_ascii_chars_encode_utf8("PROTOCOL_VERSIONS"@);
    is_ascii_chars_encode_utf8("3.4.5"@);
    is_ascii_chars_encode_utf8("lz4"@);
    is_ascii_chars_encode_utf8("snappy"@);
    is_ascii_chars_encode_utf8("4"@);
}

proof fn lemma_offered(order: Seq<OptionView>)
    requires
        order.to_multiset() == server_options().to_multiset(),
    ensures
        order.len() == 3,
        each_option_fits(order),
        offers(order, "CQL_VERSION"@, seq!["3.4.5"@]),
        offers(order, "COMPRESSION"@, seq!["lz4"@, "snappy"@]),
        offers(order, "PROTOCOL_VERSIONS"@, seq![decimal(VERSION as nat)]),
{
    broadcast use group_to_multiset_ensures;

    let options = server_options();
    lemma_options_fit();
    assert(order.len() == order.to_multiset().len());
    assert(options.len() == options.to_multiset().len());
    assert forall|o: OptionView| options.contains(o) implies #[trigger] order.contains(o) by {
        assert(options.to_multiset().count(o) > 0);
    }
    assert forall|i: int| 0 <= i < order.len() implies option_fits(#[trigger] order[i]) by {
        assert(order.contains(order[i]));
        assert(order.to_multiset().count(order[i]) > 0);
        assert(options.contains(order[i]));
        let k = options.index_of(order[i]);
        assert(k == 0 || k == 1 || k == 2);
    }
    assert(options.contains(options[0]));
    assert(options.contains(options[1]));
    assert(options.contains(options[2]));
    let i0 = order.index_of(options[0]);
    let i1 = order.index_of(options[1]);
    let i2 = order.index_of(options[2]);
    assert(order.contains(options[0]) && order.contains(options[1]) && order.contains(options[2]));
    assert(order[i0] == ("CQL_VERSION"@, seq!["3.4.5"@]));
    assert(order[i1] == ("COMPRESSION"@, seq!["lz4"@, "snappy"@]));
    assert(order[i2] == ("PROTOCOL_VERSIONS"@, seq![decimal(VERSION as nat)]));
}

/// A client that asks for the options reads three, in some order: the version of
/// CQL, the algorithms of compression, and the one version of the protocol that
/// the server speaks.
pub proof fn law_options_are_read(
    b: Seq<u8>,
    stream: i16,
    compression: Option<Compression>,
)
    requires
        says_supported(b, VERSION, stream, compression),
        b.len() <= u32::MAX,
    ensures
        exists|order: Seq<OptionView>|
            order.len() == 3 && offers(order, "CQL_VERSION"@, seq!["3.4.5"@]) && offers(
                order,
                "COMPRESSION"@,
                seq!["lz4"@, "snappy"@],
            ) && offers(order, "PROTOCOL_VERSIONS"@, seq![decimal(VERSION as nat)])
                && #[trigger] says(
                b,
                stream,
                0x06,
                compression,
                seq![Item::Short(3)] + option_items(order),
            ),
{
    let options = server_options();
    let body = choose|body: Seq<u8>| #[trigger]
        is_multimap(body, options) && b == frame_bytes(
            VERSION,
            stream,
            ResponseOpcode::Supported,
            body,
            compression,
        );
    let order = choose|order: Seq<OptionView>| #[trigger]
        order.to_multiset() == options.to_multiset() && body == be16(options.len() as u16)
            + options_bytes(order);
    lemma_offered(order);
    lemma_short_item(3);
    lemma_one(be16(3), Item::Short(3));
    lemma_options(order);
    lemma_both(be16(3), seq![Item::Short(3)], options_bytes(order), option_items(order));
    lemma_frame(stream, ResponseOpcode::Supported, body, compression);
    assert(reads_as_items(body, seq![Item::Short(3)] + option_items(order)));
    assert(says(b, stream, 0x06, compression, seq![Item::Short(3)] + option_items(order)));
}

/// Every algorithm that the server offers is one that it takes.
pub proof fn law_offered_compression_is_taken(i: int)
    requires
        0 <= i < server_options()[1].1.len(),
    ensures
        server_options()[1].0 == "COMPRESSION"@,
        lower_text(server_options()[1].1[i]) == server_options()[1].1[i],
        server_options()[1].1[i] == "lz4"@ || server_options()[1].1[i] == "snappy"@,
{
    reveal_strlit("lz4");
    reveal_strlit("snappy");
    assert(lower_text("lz4"@) =~= "lz4"@);
    assert(lower_text("snappy"@) =~= "snappy"@);
}

/// An error names what it is about at the end of its message, or within.
pub proof fn law_errors_name_their_cause(keyspace: Seq<char>, name: Seq<char>)
    ensures
        code_name(undefined_column(name).code as int) == "Invalid"@,
        name.is_suffix_of(undefined_column(name).message),
        code_name(not_writable(keyspace).code as int) == "Invalid"@,
        code_name(no_table(keyspace, name).code as int) == "Invalid"@,
        exists|a: Seq<char>, b: Seq<char>|
            not_writable(keyspace).message == #[trigger] (a + keyspace + b),
        exists|a: Seq<char>, b: Seq<char>|
            no_table(keyspace, name).message == #[trigger] (a + keyspace + "."@ + name + b),
        is_system("system"@) && is_system("system_schema"@),
        name != "system"@ && name != "system_schema"@ ==> !is_system(name),
{
    let u = undefined_column(name).message;
    assert(u.subrange(u.len() - name.len(), u.len() as int) =~= name);
    assert(not_writable(keyspace).message =~= "Modifications to keyspace '"@ + keyspace
        + "' are not allowed"@);
    assert(no_table(keyspace, name).message =~= "table "@ + keyspace + "."@ + name
        + " does not exist"@);
}

} // verus!
