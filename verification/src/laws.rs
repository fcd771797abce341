//! What holds of statements as a whole: what is written is read back, what is
//! refused writes nothing.

use crate::bytes::{has_prefix, i32_of, un_be};
use crate::cql_value::{
    be_raw, law_decoded_is_typed, law_raw_bytes_round_trip, lemma_element_bound, lemma_entry_bound,
    literal_value, raw, typed, LiteralReading, ValueView,
};
use crate::ddl::text_parts;
use crate::dml::{
    assigned_parts, assignments_of, delete_command, insert_command, insert_operands, inserted_cells,
    inserted_key, inserted_row, stored_cells, update_plan, updated, updated_row, updates_of,
    value_named, Assigned,
};
use crate::error::{is_system, ErrorView};
use crate::expr::{
    bind_value, constant, constant_pairs, constants, filter_of, filters_of, fixed_parts,
    fixed_value, operand_value, Env, FilterView,
};
use crate::keys::{
    cells_fit, data_prefix, decode_cell, decode_cells, decoded_row, law_key_round_trip,
    law_partition_prefix, law_row_round_trip, nulls, parts_fit, row_key, with_cells,
};
use crate::order::lemma_key_order_contains;
use crate::query::{
    drop_table_step, keyspace_step, removals, row_step, rows_step, schema_scan, statement_keyspace,
    sweep_step, table_step, update_step, NextView, ResponseView, SelectingView, SweepingView,
    UpdatingView,
};
use crate::schema::{
    column_names, id_text, listed_partition, marked_partition, table_of, ColumnType, ColumnView,
    TableView,
};
use crate::select::{
    counted, extended, fill_key, in_result_order, key_place, limit_reached, listed_bytes, meets_all,
    partition_restricted, partitions_of, projected, result_rows, row_values, select_scans,
    stops_early, suffices, with_each, SelectView,
};
use crate::storage::{
    engines_after, engines_after_all, held, law_partition_on_one_engine, law_read_your_writes,
    law_truncate_empties_table, partition_scan, put_row_command, row_engine, row_place,
    truncate_commands, CommandView, Engines, OpView, Place,
};
use crate::text::lemma_index_in;
use cql3_parser::cassandra_statement::CassandraStatement;
use cql3_parser::common::{Identifier, Operand, RelationElement};
use cql3_parser::common_drop::CommonDrop;
use cql3_parser::create_table::CreateTable;
use cql3_parser::delete::Delete;
use cql3_parser::insert::Insert;
use cql3_parser::update::{AssignmentElement, Update};
use vstd::prelude::*;

verus! {

/// A literal denotes a value of the column's type.
proof fn lemma_literal_typed(text: Seq<char>, t: ColumnType, readings: Seq<LiteralReading>)
    requires
        literal_value(text, t, readings) is Ok,
        raw(literal_value(text, t, readings)->Ok_0).len() <= i32::MAX,
    ensures
        typed(literal_value(text, t, readings)->Ok_0, t),
{
    let v = literal_value(text, t, readings)->Ok_0;
    match t {
        ColumnType::Inet => {
            let a = v->Inet_0;
            assert(a.len() == 4 || a.len() == 16);
        },
        ColumnType::Uuid => {
            assert(v->Uuid_0.len() == 16);
        },
        _ => {},
    }
}

proof fn lemma_constant_typed(env: Env, text: Seq<char>, t: ColumnType)
    requires
        constant(env, text, t) is Ok,
        raw(constant(env, text, t)->Ok_0).len() <= i32::MAX,
    ensures
        typed(constant(env, text, t)->Ok_0, t),
{
    lemma_literal_typed(text, t, env.readings);
}

proof fn lemma_constants_typed(env: Env, items: Seq<String>, i: int, t: ColumnType)
    requires
        0 <= i <= items.len(),
        constants(env, items, i, t) is Ok,
        forall|j: int|
            0 <= j < constants(env, items, i, t)->Ok_0.len() ==> raw(
                #[trigger] constants(env, items, i, t)->Ok_0[j],
            ).len() <= i32::MAX,
    ensures
        forall|j: int|
            0 <= j < constants(env, items, i, t)->Ok_0.len() ==> typed(
                #[trigger] constants(env, items, i, t)->Ok_0[j],
                t,
            ),
    decreases items.len() - i,
{
    if i < items.len() {
        let vs = constants(env, items, i, t)->Ok_0;
        let v = constant(env, items[i]@, t)->Ok_0;
        let rest = constants(env, items, i + 1, t)->Ok_0;
        assert(vs =~= seq![v] + rest);
        assert(vs[0] == v);
        lemma_constant_typed(env, items[i]@, t);
        assert forall|j: int| 0 <= j < rest.len() implies raw(#[trigger] rest[j]).len()
            <= i32::MAX by {
            assert(vs[j + 1] == rest[j]);
        }
        lemma_constants_typed(env, items, i + 1, t);
        assert forall|j: int| 0 <= j < vs.len() implies typed(#[trigger] vs[j], t) by {
            if j > 0 {
                assert(vs[j] == rest[j - 1]);
            }
        }
    }
}

proof fn lemma_pairs_typed(
    env: Env,
    items: Seq<(String, String)>,
    i: int,
    k: ColumnType,
    t: ColumnType,
)
    requires
        0 <= i <= items.len(),
        constant_pairs(env, items, i, k, t) is Ok,
        forall|j: int|
            0 <= j < constant_pairs(env, items, i, k, t)->Ok_0.len() ==> {
                let e = #[trigger] constant_pairs(env, items, i, k, t)->Ok_0[j];
                raw(e.0).len() <= i32::MAX && raw(e.1).len() <= i32::MAX
            },
    ensures
        forall|j: int|
            0 <= j < constant_pairs(env, items, i, k, t)->Ok_0.len() ==> {
                let e = #[trigger] constant_pairs(env, items, i, k, t)->Ok_0[j];
                typed(e.0, k) && typed(e.1, t)
            },
    decreases items.len() - i,
{
    if i < items.len() {
        let es = constant_pairs(env, items, i, k, t)->Ok_0;
        let a = constant(env, items[i].0@, k)->Ok_0;
        let b = constant(env, items[i].1@, t)->Ok_0;
        let rest = constant_pairs(env, items, i + 1, k, t)->Ok_0;
        assert(es =~= seq![(a, b)] + rest);
        assert(es[0] == (a, b));
        lemma_constant_typed(env, items[i].0@, k);
        lemma_constant_typed(env, items[i].1@, t);
        assert forall|j: int| 0 <= j < rest.len() implies {
            let e = #[trigger] rest[j];
            raw(e.0).len() <= i32::MAX && raw(e.1).len() <= i32::MAX
        } by {
            assert(es[j + 1] == rest[j]);
        }
        lemma_pairs_typed(env, items, i + 1, k, t);
        assert forall|j: int| 0 <= j < es.len() implies {
            let e = #[trigger] es[j];
            typed(e.0, k) && typed(e.1, t)
        } by {
            if j > 0 {
                assert(es[j] == rest[j - 1]);
            }
        }
    }
}

proof fn lemma_bound_typed(env: Env, next: nat, t: ColumnType)
    requires
        bind_value(env, next, t) is Ok,
    ensures
        bind_value(env, next, t)->Ok_0.0 is Null || typed(bind_value(env, next, t)->Ok_0.0, t),
{
    match env.values[next as int] {
        None => {},
        Some(bytes) => law_decoded_is_typed(be_raw(bytes), t),
    }
}

/// An operand stands for null or for a value of the column's type, if the
/// value is short enough for its length prefix.
pub proof fn law_operands_are_typed(env: Env, next: nat, operand: Operand, t: ColumnType)
    requires
        operand_value(env, next, operand, t) is Ok,
        raw(operand_value(env, next, operand, t)->Ok_0.0).len() <= i32::MAX,
    ensures
        operand_value(env, next, operand, t)->Ok_0.0 is Null || typed(
            operand_value(env, next, operand, t)->Ok_0.0,
            t,
        ),
{
    let v = operand_value(env, next, operand, t)->Ok_0.0;
    match operand {
        Operand::Const(text) => lemma_constant_typed(env, text@, t),
        Operand::Param(_) => lemma_bound_typed(env, next, t),
        Operand::Set(items) => {
            let vs = v->SetOf_0;
            assert forall|j: int| 0 <= j < vs.len() implies raw(#[trigger] vs[j]).len()
                <= i32::MAX by {
                lemma_element_bound(vs, j);
            }
            lemma_constants_typed(env, items@, 0, *t->SetOf_0);
        },
        Operand::List(items) => {
            let vs = v->List_0;
            assert forall|j: int| 0 <= j < vs.len() implies raw(#[trigger] vs[j]).len()
                <= i32::MAX by {
                lemma_element_bound(vs, j);
            }
            lemma_constants_typed(env, items@, 0, *t->List_0);
        },
        Operand::Map(items) => {
            let es = v->MapOf_0;
            assert forall|j: int| 0 <= j < es.len() implies {
                let e = #[trigger] es[j];
                raw(e.0).len() <= i32::MAX && raw(e.1).len() <= i32::MAX
            } by {
                lemma_entry_bound(es, j);
            }
            lemma_pairs_typed(env, items@, 0, *t->MapOf_0, *t->MapOf_1);
        },
        _ => {},
    }
}

/// Whether a table is one whose rows can be read back: its columns have
/// different names, as many as two bytes can count, and the key names each
/// column that is marked as part of it.
pub open spec fn readable(table: TableView) -> bool {
    &&& table.columns.len() <= 0x1_0000
    &&& forall|i: int|
        0 <= i < table.columns.len() ==> table.index_of((#[trigger] table.columns[i]).name) == Some(
            i,
        )
    &&& forall|i: int|
        0 <= i < table.columns.len() && (#[trigger] table.columns[i]).is_key()
            ==> table.key_names().contains(table.columns[i].name)
}

/// The names of the columns marked for the partition key are found in its list.
pub proof fn lemma_marked_partition(columns: Seq<ColumnView>, i: int)
    requires
        0 <= i < columns.len(),
        columns[i].is_partition_key,
    ensures
        marked_partition(columns).contains(columns[i].name),
    decreases columns.len(),
{
    let front = columns.drop_last();
    let names = marked_partition(columns);
    if i < columns.len() - 1 {
        lemma_marked_partition(front, i);
        let k = choose|k: int|
            0 <= k < marked_partition(front).len() && marked_partition(front)[k] == front[i].name;
        assert(names[k] == columns[i].name);
    } else {
        assert(names[names.len() - 1] == columns[i].name);
    }
}

/// The rows of every table that a `CREATE TABLE` makes can be read back, where
/// its columns have different names and the key is given in one place: behind a
/// column, or in a `PRIMARY KEY` of its own.
pub proof fn law_created_table_is_readable(
    keyspace: Seq<char>,
    name: Seq<char>,
    create: CreateTable,
)
    requires
        create.columns@.len() <= 0x1_0000,
        forall|i: int, j: int|
            0 <= i < j < create.columns@.len() ==> id_text((#[trigger] create.columns@[i]).name)
                != id_text((#[trigger] create.columns@[j]).name),
        listed_partition(create).len() > 0 ==> forall|i: int|
            0 <= i < create.columns@.len() ==> !(#[trigger] create.columns@[i]).primary_key,
        table_of(keyspace, name, create) is Some,
    ensures
        readable(table_of(keyspace, name, create)->Some_0),
{
    let table = table_of(keyspace, name, create)->Some_0;
    let columns = table.columns;
    let names = column_names(columns);
    assert forall|i: int| 0 <= i < columns.len() implies table.index_of(
        (#[trigger] columns[i]).name,
    ) == Some(i) by {
        lemma_index_in(names, columns[i].name);
        let k = table.index_of(columns[i].name);
        assert(names[i] == columns[i].name);
        assert(k is Some && names[k->Some_0] == columns[i].name);
        assert(columns[i].name == id_text(create.columns@[i].name));
        assert(columns[k->Some_0].name == id_text(create.columns@[k->Some_0].name));
    }
    assert forall|i: int| 0 <= i < columns.len() && (#[trigger] columns[i]).is_key() implies {
        table.key_names().contains(columns[i].name)
    } by {
        let cd = create.columns@[i];
        assert(columns[i].name == id_text(cd.name));
        let n = table.partition_keys.len() as int;
        if columns[i].is_partition_key {
            lemma_marked_partition(columns, i);
            assert(table.partition_keys.contains(columns[i].name));
            let k = choose|k: int|
                0 <= k < n && table.partition_keys[k] == columns[i].name;
            assert(table.key_names()[k] == columns[i].name);
        } else {
            let k = choose|k: int|
                0 <= k < table.clustering_keys.len() && table.clustering_keys[k]
                    == columns[i].name;
            assert(table.key_names()[n + k] == columns[i].name);
        }
    }
}

/// Whether assigned values are short enough for their length prefixes.
pub open spec fn assigned_fit(pairs: Seq<Assigned>) -> bool {
    forall|i: int| 0 <= i < pairs.len() ==> raw((#[trigger] pairs[i]).1).len() <= i32::MAX
}

/// Whether assigned values are null or of the types of their columns.
pub open spec fn assigned_typed(pairs: Seq<Assigned>, table: TableView) -> bool {
    forall|i: int|
        0 <= i < pairs.len() ==> assigned_one_typed(#[trigger] pairs[i], table)
}

pub open spec fn assigned_one_typed(pair: Assigned, table: TableView) -> bool {
    match table.index_of(pair.0) {
        Some(c) => pair.1 is Null || typed(pair.1, table.columns[c].col_type),
        None => false,
    }
}

proof fn lemma_assignments_typed(
    env: Env,
    next: nat,
    cols: Seq<Identifier>,
    operands: Seq<Operand>,
    i: int,
    table: TableView,
)
    requires
        0 <= i,
        assignments_of(env, next, cols, operands, i, table) is Ok,
        assigned_fit(assignments_of(env, next, cols, operands, i, table)->Ok_0),
    ensures
        assigned_typed(assignments_of(env, next, cols, operands, i, table)->Ok_0, table),
    decreases cols.len() - i,
{
    if i < cols.len() {
        let pairs = assignments_of(env, next, cols, operands, i, table)->Ok_0;
        let name = id_text(cols[i]);
        let t = table.columns[table.index_of(name)->Some_0].col_type;
        let (v, after) = operand_value(env, next, operands[i], t)->Ok_0;
        let rest = assignments_of(env, after, cols, operands, i + 1, table)->Ok_0;
        assert(pairs =~= seq![(name, v)] + rest);
        assert(pairs[0] == (name, v));
        law_operands_are_typed(env, next, operands[i], t);
        assert forall|j: int| 0 <= j < rest.len() implies raw((#[trigger] rest[j]).1).len()
            <= i32::MAX by {
            assert(pairs[j + 1] == rest[j]);
        }
        lemma_assignments_typed(env, after, cols, operands, i + 1, table);
        assert forall|j: int| 0 <= j < pairs.len() implies assigned_one_typed(
            #[trigger] pairs[j],
            table,
        ) by {
            if j > 0 {
                assert(pairs[j] == rest[j - 1]);
            }
        }
    }
}

/// What a column is given is one of the assigned values.
proof fn lemma_value_named(pairs: Seq<Assigned>, name: Seq<char>, table: TableView)
    requires
        assigned_typed(pairs, table),
        value_named(pairs, name) is Some,
    ensures
        assigned_one_typed((name, value_named(pairs, name)->Some_0), table),
    decreases pairs.len(),
{
    if pairs.last().0 == name {
        assert(pairs[pairs.len() - 1] == pairs.last());
    } else {
        let before = pairs.drop_last();
        assert forall|i: int| 0 <= i < before.len() implies assigned_one_typed(
            #[trigger] before[i],
            table,
        ) by {
            assert(pairs[i] == before[i]);
        }
        lemma_value_named(before, name, table);
    }
}

/// The value that a row has in a column after an insert.
pub open spec fn inserted_value(pairs: Seq<Assigned>, c: ColumnView) -> ValueView {
    match value_named(pairs, c.name) {
        Some(v) => v,
        None => ValueView::Null,
    }
}

/// The values of a row after an insert.
pub open spec fn inserted_values(pairs: Seq<Assigned>, table: TableView) -> Seq<ValueView> {
    table.columns.map_values(|c: ColumnView| inserted_value(pairs, c))
}

proof fn lemma_with_cells_front(
    values: Seq<ValueView>,
    cell: (u16, ValueView),
    rest: Seq<(u16, ValueView)>,
)
    ensures
        with_cells(values, seq![cell] + rest) == with_cells(
            values.update(cell.0 as int, cell.1),
            rest,
        ),
    decreases rest.len(),
{
    let all = seq![cell] + rest;
    if rest.len() == 0 {
        assert(all.drop_last() =~= Seq::<(u16, ValueView)>::empty());
        assert(all.last() == cell);
        assert(with_cells(values, all.drop_last()) == values);
        assert(with_cells(values.update(cell.0 as int, cell.1), rest) == values.update(
            cell.0 as int,
            cell.1,
        ));
    } else {
        lemma_with_cells_front(values, cell, rest.drop_last());
        assert(all.drop_last() =~= seq![cell] + rest.drop_last());
        assert(all.last() == rest.last());
    }
}

/// The cells of an insert set the columns outside the key.
proof fn lemma_inserted_cells(
    pairs: Seq<Assigned>,
    table: TableView,
    i: int,
    values: Seq<ValueView>,
)
    requires
        0 <= i <= table.columns.len(),
        readable(table),
        assigned_typed(pairs, table),
        values.len() == table.columns.len(),
    ensures
        cells_fit(inserted_cells(pairs, table, i), table.columns),
        ({
            let w = with_cells(values, inserted_cells(pairs, table, i));
            &&& w.len() == values.len()
            &&& forall|c: int|
                0 <= c < values.len() ==> #[trigger] w[c] == if c >= i
                    && !table.columns[c].is_key() {
                    inserted_value(pairs, table.columns[c])
                } else {
                    values[c]
                }
        }),
    decreases table.columns.len() - i,
{
    if i < table.columns.len() {
        if table.columns[i].is_key() {
            lemma_inserted_cells(pairs, table, i + 1, values);
        } else {
            let name = table.columns[i].name;
            let v = inserted_value(pairs, table.columns[i]);
            let cell = (i as u16, v);
            let rest = inserted_cells(pairs, table, i + 1);
            let cells = inserted_cells(pairs, table, i);
            assert(table.index_of(name) == Some(i));
            assert(cells =~= seq![cell] + rest);
            lemma_inserted_cells(pairs, table, i + 1, values.update(i, v));
            lemma_with_cells_front(values, cell, rest);
            if value_named(pairs, name) is Some {
                lemma_value_named(pairs, name, table);
            }
            assert forall|j: int| 0 <= j < cells.len() implies {
                &&& (#[trigger] cells[j]).0 < table.columns.len()
                &&& cells[j].1 is Null || typed(
                    cells[j].1,
                    table.columns[cells[j].0 as int].col_type,
                )
            } by {
                if j > 0 {
                    assert(cells[j] == rest[j - 1]);
                } else {
                    assert(cells[0] == cell);
                }
            }
        }
    }
}

/// Whether a part of a key is the bytes of the value assigned to a column.
spec fn is_part(pairs: Seq<Assigned>, name: Seq<char>, part: Seq<u8>) -> bool {
    match value_named(pairs, name) {
        Some(v) => v !is Null && part == raw(v),
        None => false,
    }
}

/// The parts of a key are the bytes of the values assigned to it.
proof fn lemma_assigned_parts(
    pairs: Seq<Assigned>,
    names: Seq<Seq<char>>,
    i: int,
    missing: Seq<char>,
    null: Seq<char>,
)
    requires
        0 <= i <= names.len(),
        assigned_parts(pairs, names, i, missing, null) is Ok,
    ensures
        ({
            let parts = assigned_parts(pairs, names, i, missing, null)->Ok_0;
            &&& parts.len() == names.len() - i
            &&& forall|j: int|
                0 <= j < parts.len() ==> is_part(pairs, names[i + j], #[trigger] parts[j])
        }),
    decreases names.len() - i,
{
    if i < names.len() {
        lemma_assigned_parts(pairs, names, i + 1, missing, null);
        let parts = assigned_parts(pairs, names, i, missing, null)->Ok_0;
        let rest = assigned_parts(pairs, names, i + 1, missing, null)->Ok_0;
        let v = value_named(pairs, names[i])->Some_0;
        assert(parts =~= seq![raw(v)] + rest);
        assert forall|j: int| 0 <= j < parts.len() implies is_part(
            pairs,
            names[i + j],
            #[trigger] parts[j],
        ) by {
            if j > 0 {
                assert(parts[j] == rest[j - 1]);
                assert(names[i + j] == names[(i + 1) + (j - 1)]);
            }
        }
    }
}

/// Whether the parts of a key are the bytes of values of its columns' types.
pub open spec fn key_holds(parts: Seq<Seq<u8>>, values: Seq<ValueView>, table: TableView) -> bool {
    forall|c: int|
        0 <= c < table.columns.len() && table.columns[c].is_key() ==> {
            let v = #[trigger] values[c];
            match key_place(table, c) {
                Some(at) => 0 <= at < parts.len() && typed(v, table.columns[c].col_type)
                    && parts[at] == raw(v),
                None => false,
            }
        }
}

/// Filling in a key gives the values that its parts are of.
pub proof fn lemma_fill_key(
    start: Seq<ValueView>,
    parts: Seq<Seq<u8>>,
    values: Seq<ValueView>,
    table: TableView,
    i: int,
)
    requires
        0 <= i <= table.columns.len(),
        readable(table),
        start.len() == table.columns.len(),
        values.len() == table.columns.len(),
        key_holds(parts, values, table),
    ensures
        ({
            let w = fill_key(start, parts, table, i);
            &&& w is Ok
            &&& w->Ok_0.len() == start.len()
            &&& forall|c: int|
                0 <= c < start.len() ==> #[trigger] w->Ok_0[c] == if c >= i
                    && table.columns[c].is_key() {
                    values[c]
                } else {
                    start[c]
                }
        }),
    decreases table.columns.len() - i,
{
    if i < table.columns.len() {
        let col = table.columns[i];
        if col.is_key() {
            let v = values[i];
            assert(key_place(table, i) is Some && typed(v, col.col_type));
            law_raw_bytes_round_trip(v, col.col_type);
            assert(table.index_of(col.name) == Some(i));
            lemma_fill_key(start.update(i, v), parts, values, table, i + 1);
        } else {
            lemma_fill_key(start, parts, values, table, i + 1);
        }
    }
}

/// What an `INSERT` assigns.
pub open spec fn insert_assignments(env: Env, ins: Insert, table: TableView) -> Seq<Assigned> {
    assignments_of(env, 0, ins.columns@, insert_operands(ins)->Ok_0, 0, table)->Ok_0
}

/// The key of an inserted row holds the bytes of the values assigned to it.
pub proof fn lemma_inserted_key_holds(
    env: Env,
    ins: Insert,
    keyspace: Seq<char>,
    table: TableView,
)
    requires
        readable(table),
        inserted_row(env, ins, keyspace, table) is Ok,
        assigned_fit(insert_assignments(env, ins, table)),
    ensures
        key_holds(
            inserted_row(env, ins, keyspace, table)->Ok_0.0,
            inserted_values(insert_assignments(env, ins, table), table),
            table,
        ),
        inserted_row(env, ins, keyspace, table)->Ok_0.0.len() == table.key_names().len(),
{
    let (parts, row) = inserted_row(env, ins, keyspace, table)->Ok_0;
    let operands = insert_operands(ins)->Ok_0;
    let pairs = insert_assignments(env, ins, table);
    lemma_assignments_typed(env, 0, ins.columns@, operands, 0, table);
    let columns = table.columns;
    let a = assigned_parts(
        pairs,
        table.partition_keys,
        0,
        "Some partition key parts are missing: "@,
        "Invalid null value for partition key part "@,
    )->Ok_0;
    let b = assigned_parts(
        pairs,
        table.clustering_keys,
        0,
        "Some clustering key parts are missing: "@,
        "Invalid null value for clustering key part "@,
    )->Ok_0;
    lemma_assigned_parts(
        pairs,
        table.partition_keys,
        0,
        "Some partition key parts are missing: "@,
        "Invalid null value for partition key part "@,
    );
    lemma_assigned_parts(
        pairs,
        table.clustering_keys,
        0,
        "Some clustering key parts are missing: "@,
        "Invalid null value for clustering key part "@,
    );
    assert(parts == a + b);
    let values = inserted_values(pairs, table);
    assert forall|c: int| 0 <= c < columns.len() && columns[c].is_key() implies {
        let v = #[trigger] values[c];
        match key_place(table, c) {
            Some(at) => 0 <= at < parts.len() && typed(v, columns[c].col_type)
                && parts[at] == raw(v),
            None => false,
        }
    } by {
        let name = columns[c].name;
        lemma_index_in(table.key_names(), name);
        let at = key_place(table, c)->Some_0;
        if at < a.len() {
            assert(a[at] == parts[at]);
            assert(table.partition_keys[at] == name);
            assert(is_part(pairs, table.partition_keys[0 + at], a[at]));
        } else {
            let k = at - a.len();
            assert(b[k] == parts[at]);
            assert(table.clustering_keys[k] == name);
            assert(is_part(pairs, table.clustering_keys[0 + k], b[k]));
        }
        lemma_value_named(pairs, name, table);
        assert(table.index_of(name) == Some(c));
    }
}

/// A row that was inserted is read back as it was written: each column has the
/// value that was assigned to it, and null where none was.
pub proof fn law_insert_reads_back(env: Env, ins: Insert, keyspace: Seq<char>, table: TableView)
    requires
        readable(table),
        inserted_row(env, ins, keyspace, table) is Ok,
        assigned_fit(insert_assignments(env, ins, table)),
        parts_fit(inserted_row(env, ins, keyspace, table)->Ok_0.0),
    ensures
        ({
            let (parts, row) = inserted_row(env, ins, keyspace, table)->Ok_0;
            row_values(row_key(keyspace, table.name, parts), row, keyspace, table) == Ok::<
                Seq<ValueView>,
                Seq<char>,
            >(inserted_values(insert_assignments(env, ins, table), table))
        }),
{
    let (parts, row) = inserted_row(env, ins, keyspace, table)->Ok_0;
    let operands = insert_operands(ins)->Ok_0;
    let pairs = insert_assignments(env, ins, table);
    lemma_assignments_typed(env, 0, ins.columns@, operands, 0, table);
    let columns = table.columns;
    let start = nulls(columns.len());
    let cells = inserted_cells(pairs, table, 0);
    lemma_inserted_cells(pairs, table, 0, start);
    law_row_round_trip(cells, columns);
    law_key_round_trip(data_prefix(keyspace, table.name), parts);
    let values = inserted_values(pairs, table);
    lemma_inserted_key_holds(env, ins, keyspace, table);
    let w = with_cells(start, cells);
    lemma_fill_key(w, parts, values, table, 0);
    assert(fill_key(w, parts, table, 0)->Ok_0 =~= values);
}

/// The row that a selection makes of an entry, if the entry is a row that
/// meets the restrictions.
pub open spec fn selected_row(
    plan: SelectView,
    entry: (Seq<u8>, Seq<u8>),
    keyspace: Seq<char>,
    table: TableView,
) -> Option<Seq<ValueView>> {
    match row_values(entry.0, entry.1, keyspace, table) {
        Err(_) => None,
        Ok(values) => if meets_all(plan.filters, values, table) {
            match projected(plan.selected, 0, values, table) {
                Ok(row) => Some(row),
                Err(_) => None,
            }
        } else {
            None
        },
    }
}

proof fn lemma_selected_rows_match(
    plan: SelectView,
    fetched: Seq<(Seq<u8>, Seq<u8>)>,
    i: int,
    n: nat,
    keyspace: Seq<char>,
    table: TableView,
    r: int,
)
    requires
        0 <= i,
        result_rows(plan, fetched, i, n, keyspace, table) is Ok,
        0 <= r < result_rows(plan, fetched, i, n, keyspace, table)->Ok_0.len(),
    ensures
        exists|k: int|
            i <= k < fetched.len() && selected_row(plan, #[trigger] fetched[k], keyspace, table)
                == Some(result_rows(plan, fetched, i, n, keyspace, table)->Ok_0[r]),
    decreases fetched.len() - i,
{
    let rows = result_rows(plan, fetched, i, n, keyspace, table)->Ok_0;
    if i < fetched.len() {
        let values = row_values(fetched[i].0, fetched[i].1, keyspace, table)->Ok_0;
        if !meets_all(plan.filters, values, table) {
            lemma_selected_rows_match(plan, fetched, i + 1, n, keyspace, table, r);
        } else {
            let row = projected(plan.selected, 0, values, table)->Ok_0;
            assert(selected_row(plan, fetched[i], keyspace, table) == Some(row));
            if limit_reached(plan.limit, n + 1) {
                assert(rows =~= seq![row]);
            } else {
                let rest = result_rows(plan, fetched, i + 1, n + 1, keyspace, table)->Ok_0;
                assert(rows =~= seq![row] + rest);
                if r > 0 {
                    lemma_selected_rows_match(
                        plan,
                        fetched,
                        i + 1,
                        n + 1,
                        keyspace,
                        table,
                        r - 1,
                    );
                    assert(rows[r] == rest[r - 1]);
                }
            }
        }
    }
}

/// Every row of a result comes from a row that was read and meets the
/// restrictions.
pub proof fn law_selected_rows_match(
    plan: SelectView,
    fetched: Seq<(Seq<u8>, Seq<u8>)>,
    keyspace: Seq<char>,
    table: TableView,
    r: int,
)
    requires
        result_rows(plan, fetched, 0, 0, keyspace, table) is Ok,
        0 <= r < result_rows(plan, fetched, 0, 0, keyspace, table)->Ok_0.len(),
    ensures
        exists|k: int|
            0 <= k < fetched.len() && selected_row(plan, #[trigger] fetched[k], keyspace, table)
                == Some(result_rows(plan, fetched, 0, 0, keyspace, table)->Ok_0[r]),
{
    lemma_selected_rows_match(plan, fetched, 0, 0, keyspace, table, r);
}

proof fn lemma_matching_rows_are_selected(
    plan: SelectView,
    fetched: Seq<(Seq<u8>, Seq<u8>)>,
    i: int,
    n: nat,
    keyspace: Seq<char>,
    table: TableView,
    k: int,
)
    requires
        plan.limit is None,
        0 <= i <= k < fetched.len(),
        result_rows(plan, fetched, i, n, keyspace, table) is Ok,
        selected_row(plan, fetched[k], keyspace, table) is Some,
    ensures
        result_rows(plan, fetched, i, n, keyspace, table)->Ok_0.contains(
            selected_row(plan, fetched[k], keyspace, table)->Some_0,
        ),
    decreases fetched.len() - i,
{
    let rows = result_rows(plan, fetched, i, n, keyspace, table)->Ok_0;
    let wanted = selected_row(plan, fetched[k], keyspace, table)->Some_0;
    let values = row_values(fetched[i].0, fetched[i].1, keyspace, table)->Ok_0;
    if !meets_all(plan.filters, values, table) {
        lemma_matching_rows_are_selected(plan, fetched, i + 1, n, keyspace, table, k);
    } else {
        let row = projected(plan.selected, 0, values, table)->Ok_0;
        let rest = result_rows(plan, fetched, i + 1, n + 1, keyspace, table)->Ok_0;
        assert(rows =~= seq![row] + rest);
        if i == k {
            assert(rows[0] == wanted);
        } else {
            lemma_matching_rows_are_selected(plan, fetched, i + 1, n + 1, keyspace, table, k);
            let r = choose|r: int| 0 <= r < rest.len() && rest[r] == wanted;
            assert(rows[r + 1] == wanted);
        }
    }
}

/// Without a limit, every row that was read and meets the restrictions is in
/// the result.
pub proof fn law_matching_rows_are_selected(
    plan: SelectView,
    fetched: Seq<(Seq<u8>, Seq<u8>)>,
    keyspace: Seq<char>,
    table: TableView,
    k: int,
)
    requires
        plan.limit is None,
        0 <= k < fetched.len(),
        result_rows(plan, fetched, 0, 0, keyspace, table) is Ok,
        selected_row(plan, fetched[k], keyspace, table) is Some,
    ensures
        result_rows(plan, fetched, 0, 0, keyspace, table)->Ok_0.contains(
            selected_row(plan, fetched[k], keyspace, table)->Some_0,
        ),
{
    lemma_matching_rows_are_selected(plan, fetched, 0, 0, keyspace, table, k);
}

/// A result has no more rows than its limit, but for the first row, which is
/// there even with a limit that is not positive.
pub proof fn law_limit(
    plan: SelectView,
    fetched: Seq<(Seq<u8>, Seq<u8>)>,
    keyspace: Seq<char>,
    table: TableView,
)
    requires
        plan.limit is Some,
        result_rows(plan, fetched, 0, 0, keyspace, table) is Ok,
        fetched.len() <= i32::MAX,
    ensures
        ({
            let rows = result_rows(plan, fetched, 0, 0, keyspace, table)->Ok_0;
            rows.len() <= plan.limit->Some_0 || rows.len() <= 1
        }),
{
    lemma_limit(plan, fetched, 0, 0, keyspace, table, fetched.len());
}

proof fn lemma_limit(
    plan: SelectView,
    fetched: Seq<(Seq<u8>, Seq<u8>)>,
    i: int,
    n: nat,
    keyspace: Seq<char>,
    table: TableView,
    bound: nat,
)
    requires
        0 <= i,
        plan.limit is Some,
        result_rows(plan, fetched, i, n, keyspace, table) is Ok,
        bound <= i32::MAX,
        i <= fetched.len() ==> n + (fetched.len() - i) <= bound,
        n == 0 || n < plan.limit->Some_0,
    ensures
        ({
            let rows = result_rows(plan, fetched, i, n, keyspace, table)->Ok_0;
            n + rows.len() <= plan.limit->Some_0 || n + rows.len() <= 1
        }),
    decreases fetched.len() - i,
{
    if i < fetched.len() {
        let values = row_values(fetched[i].0, fetched[i].1, keyspace, table)->Ok_0;
        if !meets_all(plan.filters, values, table) {
            lemma_limit(plan, fetched, i + 1, n, keyspace, table, bound);
        } else if !limit_reached(plan.limit, n + 1) {
            lemma_limit(plan, fetched, i + 1, n + 1, keyspace, table, bound);
        }
    }
}

/// The bytes that are listed for the first partition keys make up one of the
/// partitions that are read.
proof fn lemma_listed_partition(
    filters: Seq<FilterView>,
    names: Seq<Seq<char>>,
    i: nat,
    parts: Seq<Seq<u8>>,
)
    requires
        i <= names.len(),
        i <= parts.len(),
        forall|j: int| 0 <= j < i ==> listed_bytes(filters, names[j]).contains(#[trigger] parts[j]),
    ensures
        partitions_of(filters, names, i).contains(parts.take(i as int)),
    decreases i,
{
    if i == 0 {
        assert(parts.take(0) =~= Seq::<Seq<u8>>::empty());
        assert(partitions_of(filters, names, 0)[0] == Seq::<Seq<u8>>::empty());
    } else {
        let before = (i - 1) as nat;
        lemma_listed_partition(filters, names, before, parts);
        let combos = partitions_of(filters, names, before);
        let values = listed_bytes(filters, names[before as int]);
        let c = choose|c: int| 0 <= c < combos.len() && combos[c] == parts.take(before as int);
        assert(values.contains(parts[before as int]));
        lemma_extended(combos, values, c, parts[before as int]);
        assert(parts.take(before as int).push(parts[before as int]) =~= parts.take(i as int));
    }
}

proof fn lemma_extended(combos: Seq<Seq<Seq<u8>>>, values: Seq<Seq<u8>>, c: int, v: Seq<u8>)
    requires
        0 <= c < combos.len(),
        values.contains(v),
    ensures
        extended(combos, values).contains(combos[c].push(v)),
    decreases combos.len(),
{
    let before = extended(combos.drop_last(), values);
    let here = with_each(combos.last(), values);
    let all = extended(combos, values);
    assert(all =~= before + here);
    if c == combos.len() - 1 {
        let j = choose|j: int| 0 <= j < values.len() && values[j] == v;
        assert(here[j] == combos[c].push(v));
        assert(all[before.len() + j] == here[j]);
    } else {
        lemma_extended(combos.drop_last(), values, c, v);
        let j = choose|j: int| 0 <= j < before.len() && before[j] == combos[c].push(v);
        assert(all[j] == before[j]);
    }
}

proof fn lemma_first_rows_suffice(
    plan: SelectView,
    keyspace: Seq<char>,
    table: TableView,
    fetched: Seq<(Seq<u8>, Seq<u8>)>,
    more: Seq<(Seq<u8>, Seq<u8>)>,
    i: int,
    n: nat,
)
    requires
        0 <= i <= fetched.len(),
        stops_early(plan, table),
        n == 0 || n < plan.limit->Some_0,
        counted(plan, keyspace, table, fetched, i) >= 1,
        n + counted(plan, keyspace, table, fetched, i) >= plan.limit->Some_0,
    ensures
        result_rows(plan, fetched + more, i, n, keyspace, table) == result_rows(
            plan,
            fetched,
            i,
            n,
            keyspace,
            table,
        ),
    decreases fetched.len() - i,
{
    let all = fetched + more;
    assert(all[i] == fetched[i]);
    match row_values(fetched[i].0, fetched[i].1, keyspace, table) {
        Err(_) => {},
        Ok(values) => {
            if !meets_all(plan.filters, values, table) {
                lemma_first_rows_suffice(plan, keyspace, table, fetched, more, i + 1, n);
            } else if projected(plan.selected, 0, values, table) is Ok && !limit_reached(
                plan.limit,
                n + 1,
            ) {
                lemma_first_rows_suffice(plan, keyspace, table, fetched, more, i + 1, n + 1);
            }
        },
    }
}

/// Once as many rows that count were read as a selection takes, reading more
/// makes no difference.
pub proof fn law_first_rows_suffice(
    selecting: SelectingView,
    fetched: Seq<(Seq<u8>, Seq<u8>)>,
    more: Seq<(Seq<u8>, Seq<u8>)>,
)
    requires
        suffices(
            selecting.plan,
            selecting.table,
            counted(selecting.plan, selecting.keyspace, selecting.table, fetched, 0),
        ),
    ensures
        rows_step(selecting, Ok(fetched + more)) == rows_step(selecting, Ok(fetched)),
{
    lemma_first_rows_suffice(
        selecting.plan,
        selecting.keyspace,
        selecting.table,
        fetched,
        more,
        0,
        0,
    );
}

/// Whether a scan comes across a row.
pub open spec fn scan_reaches(
    scan: Place,
    n: nat,
    keyspace: Seq<char>,
    table: Seq<char>,
    parts: Seq<Seq<u8>>,
) -> bool {
    scan.0 == row_engine(n, keyspace, table, parts) && has_prefix(
        row_key(keyspace, table, parts),
        scan.1,
    )
}

/// The scans of a selection come across every row whose partition the
/// restrictions list, and across every row of the table if they do not
/// restrict the whole partition key.
pub proof fn law_select_reaches_row(
    n: nat,
    keyspace: Seq<char>,
    table: TableView,
    filters: Seq<FilterView>,
    parts: Seq<Seq<u8>>,
)
    requires
        n >= 1,
        table.partition_keys.len() > 0,
        parts.len() >= table.partition_keys.len(),
        partition_restricted(filters, table) ==> forall|j: int|
            0 <= j < table.partition_keys.len() ==> listed_bytes(
                filters,
                table.partition_keys[j],
            ).contains(#[trigger] parts[j]),
    ensures
        exists|k: int|
            0 <= k < select_scans(n, keyspace, table, filters).len() && scan_reaches(
                #[trigger] select_scans(n, keyspace, table, filters)[k],
                n,
                keyspace,
                table.name,
                parts,
            ),
{
    let scans = select_scans(n, keyspace, table, filters);
    let p = table.partition_keys.len();
    let partition = parts.take(p as int);
    let clustering = parts.skip(p as int);
    assert(partition + clustering =~= parts);
    law_partition_prefix(keyspace, table.name, partition, clustering);
    law_partition_on_one_engine(n, keyspace, table.name, partition, clustering);
    if partition_restricted(filters, table) {
        lemma_listed_partition(filters, table.partition_keys, p, parts);
        let combos = partitions_of(filters, table.partition_keys, p);
        let c = choose|c: int| 0 <= c < combos.len() && combos[c] == partition;
        assert(scans[c] == partition_scan(n, keyspace, table.name, partition));
        assert(scan_reaches(scans[c], n, keyspace, table.name, parts));
    } else {
        law_partition_prefix(keyspace, table.name, parts, Seq::empty());
        assert(parts + Seq::<Seq<u8>>::empty() =~= parts);
        let k = row_engine(n, keyspace, table.name, parts);
        assert(scans[k] == (k, data_prefix(keyspace, table.name)));
        assert(scan_reaches(scans[k], n, keyspace, table.name, parts));
    }
}

/// What was inserted is selected: if the scans find the row and its values
/// meet the restrictions, the result holds the selected values of the row as
/// they were assigned.
pub proof fn law_insert_then_select(
    env: Env,
    ins: Insert,
    keyspace: Seq<char>,
    table: TableView,
    plan: SelectView,
    fetched: Seq<(Seq<u8>, Seq<u8>)>,
    k: int,
)
    requires
        readable(table),
        inserted_row(env, ins, keyspace, table) is Ok,
        assigned_fit(insert_assignments(env, ins, table)),
        parts_fit(inserted_row(env, ins, keyspace, table)->Ok_0.0),
        0 <= k < fetched.len(),
        fetched[k] == (
            row_key(
                keyspace,
                table.name,
                inserted_row(env, ins, keyspace, table)->Ok_0.0,
            ),
            inserted_row(env, ins, keyspace, table)->Ok_0.1,
        ),
        plan.limit is None,
        result_rows(plan, fetched, 0, 0, keyspace, table) is Ok,
        meets_all(
            plan.filters,
            inserted_values(insert_assignments(env, ins, table), table),
            table,
        ),
        projected(
            plan.selected,
            0,
            inserted_values(insert_assignments(env, ins, table), table),
            table,
        ) is Ok,
    ensures
        result_rows(plan, fetched, 0, 0, keyspace, table)->Ok_0.contains(
            projected(
                plan.selected,
                0,
                inserted_values(insert_assignments(env, ins, table), table),
                table,
            )->Ok_0,
        ),
{
    law_insert_reads_back(env, ins, keyspace, table);
    law_matching_rows_are_selected(plan, fetched, keyspace, table, k);
}

/// Whether the values of a row are null or of the types of their columns.
pub open spec fn row_typed(values: Seq<ValueView>, columns: Seq<ColumnView>) -> bool {
    &&& values.len() == columns.len()
    &&& forall|c: int|
        0 <= c < columns.len() ==> #[trigger] values[c] is Null || typed(
            values[c],
            columns[c].col_type,
        )
}

proof fn lemma_cells_typed(
    data: Seq<u8>,
    at: int,
    columns: Seq<ColumnView>,
    values: Seq<ValueView>,
)
    requires
        0 <= at,
        row_typed(values, columns),
        decode_cells(data, at, columns, values) is Ok,
    ensures
        row_typed(decode_cells(data, at, columns, values)->Ok_0, columns),
    decreases data.len() - at,
{
    if at < data.len() {
        let (idx, v, end) = decode_cell(data, at, columns)->Ok_0;
        lemma_cell_typed(data, at, columns);
        lemma_cells_typed(data, end, columns, values.update(idx, v));
    }
}

proof fn lemma_cell_typed(data: Seq<u8>, at: int, columns: Seq<ColumnView>)
    requires
        0 <= at < data.len(),
        decode_cell(data, at, columns) is Ok,
    ensures
        ({
            let (idx, v, end) = decode_cell(data, at, columns)->Ok_0;
            &&& 0 <= idx < columns.len()
            &&& v is Null || typed(v, columns[idx].col_type)
        }),
{
    let idx = un_be(data.subrange(at, at + 2)) as int;
    let len = i32_of(data.subrange(at + 2, at + 6));
    if len != -1 {
        law_decoded_is_typed(data.subrange(at + 2, at + 6 + len), columns[idx].col_type);
    }
}

/// A stored row holds nulls and values of the types of its columns.
pub proof fn law_stored_row_is_typed(data: Seq<u8>, columns: Seq<ColumnView>)
    requires
        decoded_row(data, columns) is Ok,
    ensures
        row_typed(decoded_row(data, columns)->Ok_0, columns),
{
    lemma_cells_typed(data, 0, columns, nulls(columns.len()));
}

/// Whether new values are of columns of a table, and null or of their types.
spec fn updates_typed(new_values: Seq<(int, ValueView)>, columns: Seq<ColumnView>) -> bool {
    forall|i: int|
        0 <= i < new_values.len() ==> update_typed(#[trigger] new_values[i], columns)
}

spec fn update_typed(u: (int, ValueView), columns: Seq<ColumnView>) -> bool {
    0 <= u.0 < columns.len() && (u.1 is Null || typed(u.1, columns[u.0].col_type))
}

/// Whether new values are short enough for their length prefixes.
pub open spec fn updates_fit(new_values: Seq<(int, ValueView)>) -> bool {
    forall|i: int|
        0 <= i < new_values.len() ==> raw((#[trigger] new_values[i]).1).len() <= i32::MAX
}

proof fn lemma_updates_typed(
    env: Env,
    next: nat,
    assignments: Seq<AssignmentElement>,
    i: int,
    table: TableView,
)
    requires
        0 <= i,
        updates_of(env, next, assignments, i, table) is Ok,
        updates_fit(updates_of(env, next, assignments, i, table)->Ok_0.0),
    ensures
        updates_typed(updates_of(env, next, assignments, i, table)->Ok_0.0, table.columns),
    decreases assignments.len() - i,
{
    if i < assignments.len() {
        let all = updates_of(env, next, assignments, i, table)->Ok_0.0;
        let name = id_text(assignments[i].name.column);
        let c = table.index_of(name)->Some_0;
        let t = table.columns[c].col_type;
        let (v, after) = operand_value(env, next, assignments[i].value, t)->Ok_0;
        let rest = updates_of(env, after, assignments, i + 1, table)->Ok_0.0;
        assert(all =~= seq![(c, v)] + rest);
        assert(all[0] == (c, v));
        law_operands_are_typed(env, next, assignments[i].value, t);
        lemma_index_in(column_names(table.columns), name);
        assert forall|j: int| 0 <= j < rest.len() implies raw((#[trigger] rest[j]).1).len()
            <= i32::MAX by {
            assert(all[j + 1] == rest[j]);
        }
        lemma_updates_typed(env, after, assignments, i + 1, table);
        assert forall|j: int| 0 <= j < all.len() implies update_typed(
            #[trigger] all[j],
            table.columns,
        ) by {
            if j > 0 {
                assert(all[j] == rest[j - 1]);
            }
        }
    }
}

proof fn lemma_updated_typed(
    values: Seq<ValueView>,
    new_values: Seq<(int, ValueView)>,
    columns: Seq<ColumnView>,
)
    requires
        row_typed(values, columns),
        updates_typed(new_values, columns),
    ensures
        row_typed(updated(values, new_values), columns),
    decreases new_values.len(),
{
    if new_values.len() > 0 {
        let before = new_values.drop_last();
        assert forall|i: int| 0 <= i < before.len() implies update_typed(
            #[trigger] before[i],
            columns,
        ) by {
            assert(new_values[i] == before[i]);
        }
        lemma_updated_typed(values, before, columns);
        assert(update_typed(new_values[new_values.len() - 1], columns));
    }
}

/// The cells of a stored row set the columns outside the key.
proof fn lemma_stored_cells(
    values: Seq<ValueView>,
    columns: Seq<ColumnView>,
    i: int,
    start: Seq<ValueView>,
)
    requires
        0 <= i <= columns.len() <= 0x1_0000,
        row_typed(values, columns),
        start.len() == columns.len(),
    ensures
        cells_fit(stored_cells(values, columns, i), columns),
        ({
            let w = with_cells(start, stored_cells(values, columns, i));
            &&& w.len() == start.len()
            &&& forall|c: int|
                0 <= c < start.len() ==> #[trigger] w[c] == if c >= i && !columns[c].is_key() {
                    values[c]
                } else {
                    start[c]
                }
        }),
    decreases columns.len() - i,
{
    if i < columns.len() {
        if columns[i].is_key() {
            lemma_stored_cells(values, columns, i + 1, start);
        } else {
            let cell = (i as u16, values[i]);
            let rest = stored_cells(values, columns, i + 1);
            let cells = stored_cells(values, columns, i);
            assert(cells =~= seq![cell] + rest);
            lemma_stored_cells(values, columns, i + 1, start.update(i, values[i]));
            lemma_with_cells_front(start, cell, rest);
            assert forall|j: int| 0 <= j < cells.len() implies {
                &&& (#[trigger] cells[j]).0 < columns.len()
                &&& cells[j].1 is Null || typed(cells[j].1, columns[cells[j].0 as int].col_type)
            } by {
                if j > 0 {
                    assert(cells[j] == rest[j - 1]);
                } else {
                    assert(cells[0] == cell);
                }
            }
        }
    }
}

/// Whether a restriction compares a column with null or a value of its type, if
/// the value is short enough for its length prefix.
spec fn filter_typed(f: FilterView, table: TableView) -> bool {
    match f {
        FilterView::Eq(name, v) => match table.index_of(name) {
            Some(c) => raw(v).len() <= i32::MAX ==> v is Null || typed(
                v,
                table.columns[c].col_type,
            ),
            None => false,
        },
        FilterView::In(_, _) => true,
    }
}

spec fn all_filters_typed(filters: Seq<FilterView>, table: TableView) -> bool {
    forall|i: int| 0 <= i < filters.len() ==> filter_typed(#[trigger] filters[i], table)
}

proof fn lemma_filter_typed(env: Env, next: nat, rel: RelationElement, table: TableView)
    requires
        filter_of(env, next, rel, table) is Ok,
    ensures
        filter_typed(filter_of(env, next, rel, table)->Ok_0.0, table),
{
    if let FilterView::Eq(name, v) = filter_of(env, next, rel, table)->Ok_0.0 {
        let t = table.columns[table.index_of(name)->Some_0].col_type;
        if raw(v).len() <= i32::MAX {
            match rel.value {
                Operand::Const(text) => lemma_constant_typed(env, text@, t),
                Operand::Param(_) => lemma_bound_typed(env, next, t),
                _ => {},
            }
        }
    }
}

proof fn lemma_filters_typed(
    env: Env,
    next: nat,
    rels: Seq<RelationElement>,
    i: int,
    table: TableView,
)
    requires
        0 <= i,
        filters_of(env, next, rels, i, table) is Ok,
    ensures
        all_filters_typed(filters_of(env, next, rels, i, table)->Ok_0.0, table),
    decreases rels.len() - i,
{
    if i < rels.len() {
        let all = filters_of(env, next, rels, i, table)->Ok_0.0;
        let (f, after) = filter_of(env, next, rels[i], table)->Ok_0;
        let rest = filters_of(env, after, rels, i + 1, table)->Ok_0.0;
        lemma_filter_typed(env, next, rels[i], table);
        lemma_filters_typed(env, after, rels, i + 1, table);
        assert(all =~= seq![f] + rest);
        assert forall|j: int| 0 <= j < all.len() implies filter_typed(#[trigger] all[j], table) by {
            if j > 0 {
                assert(all[j] == rest[j - 1]);
            } else {
                assert(all[0] == f);
            }
        }
    }
}

proof fn lemma_fixed_typed(filters: Seq<FilterView>, name: Seq<char>, table: TableView)
    requires
        all_filters_typed(filters, table),
        fixed_value(filters, name) is Some,
    ensures
        filter_typed(FilterView::Eq(name, fixed_value(filters, name)->Some_0), table),
    decreases filters.len(),
{
    let before = filters.drop_last();
    if fixed_value(before, name) is Some {
        assert forall|i: int| 0 <= i < before.len() implies filter_typed(
            #[trigger] before[i],
            table,
        ) by {
            assert(filters[i] == before[i]);
        }
        lemma_fixed_typed(before, name, table);
    } else {
        assert(filter_typed(filters[filters.len() - 1], table));
    }
}

/// Whether a part of a key is the bytes of the value that restrictions fix.
spec fn is_fixed_part(filters: Seq<FilterView>, name: Seq<char>, part: Seq<u8>) -> bool {
    match fixed_value(filters, name) {
        Some(v) => v !is Null && part == raw(v),
        None => false,
    }
}

proof fn lemma_fixed_parts(filters: Seq<FilterView>, names: Seq<Seq<char>>, i: int)
    requires
        0 <= i <= names.len(),
        fixed_parts(filters, names, i) is Ok,
    ensures
        ({
            let parts = fixed_parts(filters, names, i)->Ok_0;
            &&& parts.len() == names.len() - i
            &&& forall|j: int|
                0 <= j < parts.len() ==> is_fixed_part(filters, names[i + j], #[trigger] parts[j])
        }),
    decreases names.len() - i,
{
    if i < names.len() {
        lemma_fixed_parts(filters, names, i + 1);
        let parts = fixed_parts(filters, names, i)->Ok_0;
        let rest = fixed_parts(filters, names, i + 1)->Ok_0;
        let v = fixed_value(filters, names[i])->Some_0;
        assert(parts =~= seq![raw(v)] + rest);
        assert forall|j: int| 0 <= j < parts.len() implies is_fixed_part(
            filters,
            names[i + j],
            #[trigger] parts[j],
        ) by {
            if j > 0 {
                assert(parts[j] == rest[j - 1]);
                assert(names[i + j] == names[(i + 1) + (j - 1)]);
            }
        }
    }
}

/// The restrictions of an `UPDATE`.
pub open spec fn update_filters(env: Env, upd: Update, table: TableView) -> Seq<FilterView> {
    filters_of(
        env,
        updates_of(env, 0, upd.assignments@, 0, table)->Ok_0.1,
        upd.where_clause@,
        0,
        table,
    )->Ok_0.0
}

/// The values of a row before an update.
pub open spec fn row_before(existing: Option<Seq<u8>>, table: TableView) -> Seq<ValueView> {
    match existing {
        Some(bytes) => decoded_row(bytes, table.columns)->Ok_0,
        None => nulls(table.columns.len()),
    }
}

/// The value that a row has in a column after an update: in the key what the
/// restrictions fix, elsewhere what was set, or else what was there.
pub open spec fn value_after_update(
    before: Seq<ValueView>,
    new_values: Seq<(int, ValueView)>,
    filters: Seq<FilterView>,
    table: TableView,
    c: int,
) -> ValueView {
    if table.columns[c].is_key() {
        fixed_value(filters, table.columns[c].name)->Some_0
    } else {
        updated(before, new_values)[c]
    }
}

/// The key of an updated row holds the bytes of the values that the restrictions
/// fix.
pub proof fn lemma_updated_key_holds(
    env: Env,
    upd: Update,
    keyspace: Seq<char>,
    table: TableView,
    values: Seq<ValueView>,
)
    requires
        readable(table),
        update_plan(env, upd, keyspace, table) is Ok,
        parts_fit(update_plan(env, upd, keyspace, table)->Ok_0.key_parts),
        values.len() == table.columns.len(),
        forall|c: int|
            0 <= c < values.len() && table.columns[c].is_key() ==> #[trigger] values[c]
                == fixed_value(update_filters(env, upd, table), table.columns[c].name)->Some_0,
    ensures
        key_holds(update_plan(env, upd, keyspace, table)->Ok_0.key_parts, values, table),
        update_plan(env, upd, keyspace, table)->Ok_0.key_parts.len() == table.key_names().len(),
{
    let parts = update_plan(env, upd, keyspace, table)->Ok_0.key_parts;
    let columns = table.columns;
    let (_, next) = updates_of(env, 0, upd.assignments@, 0, table)->Ok_0;
    let filters = update_filters(env, upd, table);
    lemma_filters_typed(env, next, upd.where_clause@, 0, table);
    lemma_fixed_parts(filters, table.key_names(), 0);
    assert forall|c: int| 0 <= c < columns.len() && columns[c].is_key() implies {
        let v = #[trigger] values[c];
        match key_place(table, c) {
            Some(at) => 0 <= at < parts.len() && typed(v, columns[c].col_type)
                && parts[at] == raw(v),
            None => false,
        }
    } by {
        let name = columns[c].name;
        lemma_index_in(table.key_names(), name);
        let at = key_place(table, c)->Some_0;
        assert(is_fixed_part(filters, table.key_names()[0 + at], parts[at]));
        lemma_fixed_typed(filters, name, table);
        assert(parts[at].len() <= u16::MAX);
        assert(table.index_of(name) == Some(c));
    }
}

/// A row that was updated is read back with the new values in the columns that
/// were set, and with the values that it had in the others.
pub proof fn law_update_reads_back(
    env: Env,
    upd: Update,
    keyspace: Seq<char>,
    table: TableView,
    existing: Option<Seq<u8>>,
)
    requires
        readable(table),
        update_plan(env, upd, keyspace, table) is Ok,
        updates_fit(update_plan(env, upd, keyspace, table)->Ok_0.new_values),
        parts_fit(update_plan(env, upd, keyspace, table)->Ok_0.key_parts),
        updated_row(
            table,
            existing,
            update_plan(env, upd, keyspace, table)->Ok_0.new_values,
        ) is Ok,
    ensures
        ({
            let plan = update_plan(env, upd, keyspace, table)->Ok_0;
            let row = updated_row(table, existing, plan.new_values)->Ok_0;
            let read = row_values(
                row_key(keyspace, table.name, plan.key_parts),
                row,
                keyspace,
                table,
            );
            &&& read is Ok
            &&& read->Ok_0.len() == table.columns.len()
            &&& forall|c: int|
                0 <= c < table.columns.len() ==> #[trigger] read->Ok_0[c] == value_after_update(
                    row_before(existing, table),
                    plan.new_values,
                    update_filters(env, upd, table),
                    table,
                    c,
                )
        }),
{
    let plan = update_plan(env, upd, keyspace, table)->Ok_0;
    let parts = plan.key_parts;
    let columns = table.columns;
    let (new_values, next) = updates_of(env, 0, upd.assignments@, 0, table)->Ok_0;
    let filters = update_filters(env, upd, table);
    assert(plan.new_values == new_values);
    lemma_updates_typed(env, 0, upd.assignments@, 0, table);
    lemma_filters_typed(env, next, upd.where_clause@, 0, table);
    lemma_fixed_parts(filters, table.key_names(), 0);
    let before = row_before(existing, table);
    match existing {
        Some(bytes) => law_stored_row_is_typed(bytes, columns),
        None => {},
    }
    lemma_updated_typed(before, new_values, columns);
    let after = updated(before, new_values);
    let start = nulls(columns.len());
    let cells = stored_cells(after, columns, 0);
    lemma_stored_cells(after, columns, 0, start);
    law_row_round_trip(cells, columns);
    law_key_round_trip(data_prefix(keyspace, table.name), parts);
    let values = Seq::new(
        columns.len(),
        |c: int| value_after_update(before, new_values, filters, table, c),
    );
    lemma_updated_key_holds(env, upd, keyspace, table, values);
    let w = with_cells(start, cells);
    lemma_fill_key(w, parts, values, table, 0);
    assert(fill_key(w, parts, table, 0)->Ok_0 =~= values);
}

/// The value that an update sets a column to, if it sets it: the last one.
pub open spec fn set_value(new_values: Seq<(int, ValueView)>, c: int) -> Option<ValueView>
    decreases new_values.len(),
{
    if new_values.len() == 0 {
        None
    } else if new_values.last().0 == c {
        Some(new_values.last().1)
    } else {
        set_value(new_values.drop_last(), c)
    }
}

proof fn lemma_updated_values(
    values: Seq<ValueView>,
    new_values: Seq<(int, ValueView)>,
    columns: Seq<ColumnView>,
    c: int,
)
    requires
        0 <= c < values.len(),
        values.len() == columns.len(),
        updates_typed(new_values, columns),
    ensures
        updated(values, new_values).len() == values.len(),
        updated(values, new_values)[c] == match set_value(new_values, c) {
            Some(v) => v,
            None => values[c],
        },
    decreases new_values.len(),
{
    if new_values.len() > 0 {
        let front = new_values.drop_last();
        assert forall|i: int| 0 <= i < front.len() implies update_typed(
            #[trigger] front[i],
            columns,
        ) by {
            assert(new_values[i] == front[i]);
        }
        lemma_updated_values(values, front, columns, c);
        assert(update_typed(new_values[new_values.len() - 1], columns));
    }
}

/// An `UPDATE` of any table is done: once it is, the row under the key that its
/// restrictions fix is the row that was there, or one of nulls if there was
/// none, with each column outside the key that it sets set to the last value
/// that it gives it. The key is the same, and so is every other row.
pub proof fn law_update_sets_columns(
    e: Engines,
    env: Env,
    upd: Update,
    keyspace: Seq<char>,
    table: TableView,
)
    requires
        e.len() >= 1,
        table.columns.len() <= 0x1_0000,
        update_plan(env, upd, keyspace, table) is Ok,
        updates_fit(update_plan(env, upd, keyspace, table)->Ok_0.new_values),
        held(
            e,
            row_place(
                e.len(),
                keyspace,
                table.name,
                update_plan(env, upd, keyspace, table)->Ok_0.key_parts,
            ),
        ) matches Some(bytes) ==> decoded_row(bytes, table.columns) is Ok,
    ensures
        ({
            let new_values = update_plan(env, upd, keyspace, table)->Ok_0.new_values;
            &&& update_step(e.len(), env, upd, keyspace, table).next matches NextView::Row(
                place,
                updating,
            )
            &&& ({
                let step = row_step(e.len(), updating, Ok(held(e, place)));
                let after = engines_after_all(e, step.commands);
                let before = row_before(held(e, place), table);
                &&& step.next == NextView::Done(Ok(ResponseView::Void))
                &&& held(after, place) is Some
                &&& decoded_row(held(after, place)->Some_0, table.columns) is Ok
                &&& ({
                    let row = decoded_row(held(after, place)->Some_0, table.columns)->Ok_0;
                    &&& row.len() == table.columns.len()
                    &&& forall|c: int|
                        0 <= c < row.len() ==> #[trigger] row[c] == if table.columns[c].is_key() {
                            ValueView::Null
                        } else {
                            match set_value(new_values, c) {
                                Some(v) => v,
                                None => before[c],
                            }
                        }
                })
                &&& forall|other: Place|
                    0 <= other.0 < e.len() && other != place ==> #[trigger] held(after, other)
                        == held(e, other)
            })
        }),
{
    let n = e.len();
    let plan = update_plan(env, upd, keyspace, table)->Ok_0;
    let columns = table.columns;
    let place = row_place(n, keyspace, table.name, plan.key_parts);
    let existing = held(e, place);
    let (new_values, _) = updates_of(env, 0, upd.assignments@, 0, table)->Ok_0;
    assert(plan.new_values == new_values);
    lemma_updates_typed(env, 0, upd.assignments@, 0, table);
    let before = row_before(existing, table);
    match existing {
        Some(bytes) => law_stored_row_is_typed(bytes, columns),
        None => {},
    }
    lemma_updated_typed(before, new_values, columns);
    let after_values = updated(before, new_values);
    lemma_stored_cells(after_values, columns, 0, nulls(columns.len()));
    let cells = stored_cells(after_values, columns, 0);
    law_row_round_trip(cells, columns);
    let row = updated_row(table, existing, new_values)->Ok_0;
    let c = put_row_command(n, keyspace, table.name, plan.key_parts, row);
    let updating = UpdatingView { keyspace, table, plan };
    let step = row_step(n, updating, Ok(existing));
    assert(step.commands =~= seq![c]);
    assert(seq![c].drop_last() =~= Seq::<CommandView>::empty());
    assert(engines_after_all(e, Seq::<CommandView>::empty()) == e);
    assert(engines_after_all(e, step.commands) == engines_after(e, c));
    law_read_your_writes(e, keyspace, table.name, plan.key_parts, row);
    let stored = decoded_row(row, columns)->Ok_0;
    assert forall|c: int| 0 <= c < stored.len() implies #[trigger] stored[c]
        == if columns[c].is_key() {
        ValueView::Null
    } else {
        match set_value(new_values, c) {
            Some(v) => v,
            None => before[c],
        }
    } by {
        lemma_updated_values(before, new_values, columns, c);
    }
}

/// A row that was deleted is not read any more.
pub proof fn law_delete_removes_row(
    e: Engines,
    env: Env,
    del: Delete,
    keyspace: Seq<char>,
    table: TableView,
)
    requires
        e.len() >= 1,
        delete_command(e.len(), env, del, keyspace, table) is Ok,
    ensures
        ({
            let filters = filters_of(env, 0, del.where_clause@, 0, table)->Ok_0.0;
            let parts = fixed_parts(filters, table.key_names(), 0)->Ok_0;
            held(
                engines_after(e, delete_command(e.len(), env, del, keyspace, table)->Ok_0),
                row_place(e.len(), keyspace, table.name, parts),
            ) is None
        }),
{
    let filters = filters_of(env, 0, del.where_clause@, 0, table)->Ok_0.0;
    let parts = fixed_parts(filters, table.key_names(), 0)->Ok_0;
    law_read_your_writes(e, keyspace, table.name, parts, Seq::empty());
}

/// A row that was inserted is what is held under its key from then on.
pub proof fn law_insert_is_held(
    e: Engines,
    env: Env,
    ins: Insert,
    keyspace: Seq<char>,
    table: TableView,
)
    requires
        e.len() >= 1,
        insert_command(e.len(), env, ins, keyspace, table) is Ok,
    ensures
        ({
            let (parts, row) = inserted_row(env, ins, keyspace, table)->Ok_0;
            held(
                engines_after(e, insert_command(e.len(), env, ins, keyspace, table)->Ok_0),
                row_place(e.len(), keyspace, table.name, parts),
            ) == Some(row)
        }),
{
    let (parts, row) = inserted_row(env, ins, keyspace, table)->Ok_0;
    law_read_your_writes(e, keyspace, table.name, parts, row);
}

/// A statement about a table that is refused writes nothing.
pub proof fn law_refused_statement_writes_nothing(
    n: nat,
    env: Env,
    stmt: CassandraStatement,
    keyspace: Seq<char>,
    table: Seq<char>,
    found: Result<Option<TableView>, Seq<char>>,
)
    requires
        table_step(n, env, stmt, keyspace, table, found).next matches NextView::Done(Err(_)),
    ensures
        table_step(n, env, stmt, keyspace, table, found).commands.len() == 0,
{
}

/// A statement about a keyspace that is refused writes nothing.
pub proof fn law_refused_keyspace_statement_writes_nothing(
    n: nat,
    stmt: CassandraStatement,
    found: Result<bool, Seq<char>>,
)
    requires
        keyspace_step(n, stmt, found).next matches NextView::Done(Err(_)),
    ensures
        keyspace_step(n, stmt, found).commands.len() == 0,
{
}

/// The tables of the system keyspaces can be read but not changed: no
/// statement about one writes anything or waits for a row to update.
pub proof fn law_system_tables_are_not_written(
    n: nat,
    env: Env,
    stmt: CassandraStatement,
    keyspace: Seq<char>,
    table: Seq<char>,
    found: Result<Option<TableView>, Seq<char>>,
)
    requires
        is_system(keyspace),
    ensures
        ({
            let s = table_step(n, env, stmt, keyspace, table, found);
            s.commands.len() == 0 && (s.next is Done || s.next is Rows)
        }),
{
}

/// The system keyspaces can be neither created nor dropped.
pub proof fn law_system_keyspaces_are_kept(
    n: nat,
    stmt: CassandraStatement,
    found: Result<bool, Seq<char>>,
)
    requires
        statement_keyspace(stmt) matches Some(name) && is_system(name),
    ensures
        keyspace_step(n, stmt, found).commands.len() == 0,
        keyspace_step(n, stmt, found).next is Done,
{
}

/// Whether scans of the engines found all that there is to find.
pub open spec fn scanned(
    e: Engines,
    scans: Seq<Place>,
    fetched: Seq<(Seq<u8>, Seq<u8>)>,
) -> bool {
    forall|k: int, key: Seq<u8>|
        0 <= k < scans.len() && has_prefix(key, scans[k].1) && #[trigger] held(
            e,
            (scans[k].0, key),
        ) is Some ==> fetched.contains((key, held(e, (scans[k].0, key))->Some_0))
}

/// A read gives back what was written before it. Once an `INSERT` is answered,
/// a `SELECT` whose restrictions the row meets, and list its partition if they
/// restrict the whole partition key, is answered with a row of the values that
/// were assigned.
pub proof fn law_written_row_is_read(
    e: Engines,
    env: Env,
    ins: Insert,
    keyspace: Seq<char>,
    table: TableView,
    plan: SelectView,
    fetched: Seq<(Seq<u8>, Seq<u8>)>,
)
    requires
        e.len() >= 1,
        readable(table),
        table.partition_keys.len() > 0,
        insert_command(e.len(), env, ins, keyspace, table) is Ok,
        assigned_fit(insert_assignments(env, ins, table)),
        parts_fit(inserted_row(env, ins, keyspace, table)->Ok_0.0),
        partition_restricted(plan.filters, table) ==> forall|j: int|
            0 <= j < table.partition_keys.len() ==> listed_bytes(
                plan.filters,
                table.partition_keys[j],
            ).contains(#[trigger] inserted_row(env, ins, keyspace, table)->Ok_0.0[j]),
        meets_all(
            plan.filters,
            inserted_values(insert_assignments(env, ins, table), table),
            table,
        ),
        plan.limit is None,
        scanned(
            engines_after_all(
                e,
                table_step(
                    e.len(),
                    env,
                    CassandraStatement::Insert(ins),
                    keyspace,
                    table.name,
                    Ok(Some(table)),
                ).commands,
            ),
            select_scans(e.len(), keyspace, table, plan.filters),
            fetched,
        ),
        rows_step(SelectingView { keyspace, table, plan }, Ok(fetched)).next matches NextView::Done(
            Ok(_),
        ),
    ensures
        ({
            let values = inserted_values(insert_assignments(env, ins, table), table);
            &&& table_step(
                e.len(),
                env,
                CassandraStatement::Insert(ins),
                keyspace,
                table.name,
                Ok(Some(table)),
            ).next == NextView::Done(Ok(ResponseView::Void))
            &&& rows_step(SelectingView { keyspace, table, plan }, Ok(fetched)).next
                matches NextView::Done(Ok(ResponseView::Rows { rows, .. }))
            &&& projected(plan.selected, 0, values, table) is Ok
            &&& rows.contains(projected(plan.selected, 0, values, table)->Ok_0)
        }),
{
    let n = e.len();
    let (parts, row) = inserted_row(env, ins, keyspace, table)->Ok_0;
    let c = insert_command(n, env, ins, keyspace, table)->Ok_0;
    let pairs = insert_assignments(env, ins, table);
    let values = inserted_values(pairs, table);
    let after = engines_after_all(e, seq![c]);
    assert(seq![c].drop_last() =~= Seq::<CommandView>::empty());
    assert(engines_after_all(e, Seq::<CommandView>::empty()) == e);
    assert(after == engines_after(e, c));
    law_insert_is_held(e, env, ins, keyspace, table);
    lemma_inserted_key_len(pairs, table);
    let scans = select_scans(n, keyspace, table, plan.filters);
    law_select_reaches_row(n, keyspace, table, plan.filters, parts);
    let k = choose|k: int|
        0 <= k < scans.len() && scan_reaches(#[trigger] scans[k], n, keyspace, table.name, parts);
    let key = row_key(keyspace, table.name, parts);
    assert(held(after, (scans[k].0, key)) == Some(row));
    assert(fetched.contains((key, row)));
    let ordered = in_result_order(plan.filters, table, fetched);
    lemma_key_order_contains(fetched, (key, row));
    let at = choose|at: int| 0 <= at < ordered.len() && ordered[at] == (key, row);
    law_insert_reads_back(env, ins, keyspace, table);
    lemma_result_projects(plan, ordered, 0, 0, keyspace, table, at);
    law_insert_then_select(env, ins, keyspace, table, plan, ordered, at);
}

proof fn lemma_inserted_key_len(pairs: Seq<Assigned>, table: TableView)
    requires
        inserted_key(pairs, table) is Ok,
    ensures
        inserted_key(pairs, table)->Ok_0.len() == table.key_names().len(),
{
    lemma_assigned_parts(
        pairs,
        table.partition_keys,
        0,
        "Some partition key parts are missing: "@,
        "Invalid null value for partition key part "@,
    );
    lemma_assigned_parts(
        pairs,
        table.clustering_keys,
        0,
        "Some clustering key parts are missing: "@,
        "Invalid null value for clustering key part "@,
    );
}

/// In a result without a limit, every row that meets the restrictions could be
/// projected.
proof fn lemma_result_projects(
    plan: SelectView,
    fetched: Seq<(Seq<u8>, Seq<u8>)>,
    i: int,
    n: nat,
    keyspace: Seq<char>,
    table: TableView,
    k: int,
)
    requires
        plan.limit is None,
        0 <= i <= k < fetched.len(),
        result_rows(plan, fetched, i, n, keyspace, table) is Ok,
        row_values(fetched[k].0, fetched[k].1, keyspace, table) is Ok,
        meets_all(
            plan.filters,
            row_values(fetched[k].0, fetched[k].1, keyspace, table)->Ok_0,
            table,
        ),
    ensures
        projected(
            plan.selected,
            0,
            row_values(fetched[k].0, fetched[k].1, keyspace, table)->Ok_0,
            table,
        ) is Ok,
    decreases fetched.len() - i,
{
    if i < k {
        let values = row_values(fetched[i].0, fetched[i].1, keyspace, table)->Ok_0;
        if !meets_all(plan.filters, values, table) {
            lemma_result_projects(plan, fetched, i + 1, n, keyspace, table, k);
        } else {
            lemma_result_projects(plan, fetched, i + 1, n + 1, keyspace, table, k);
        }
    }
}

/// Whether an entry is one that a scan of the engines finds.
pub open spec fn found_at(e: Engines, scan: Place, entry: (Seq<u8>, Seq<u8>)) -> bool {
    has_prefix(entry.0, scan.1) && held(e, (scan.0, entry.0)) == Some(entry.1)
}

/// Whether scans of the engines found only what there is to find.
pub open spec fn only_found(
    e: Engines,
    scans: Seq<Place>,
    fetched: Seq<(Seq<u8>, Seq<u8>)>,
) -> bool {
    forall|i: int|
        0 <= i < fetched.len() ==> exists|k: int|
            0 <= k < scans.len() && found_at(e, #[trigger] scans[k], #[trigger] fetched[i])
}

/// Every scan of a selection is on an engine that exists and for keys of the
/// table.
pub proof fn lemma_scan_in_table(
    n: nat,
    keyspace: Seq<char>,
    table: TableView,
    filters: Seq<FilterView>,
    k: int,
    key: Seq<u8>,
)
    requires
        n >= 1,
        0 <= k < select_scans(n, keyspace, table, filters).len(),
        has_prefix(key, select_scans(n, keyspace, table, filters)[k].1),
    ensures
        0 <= select_scans(n, keyspace, table, filters)[k].0 < n,
        has_prefix(key, data_prefix(keyspace, table.name)),
{
    let prefix = data_prefix(keyspace, table.name);
    if partition_restricted(filters, table) {
        let p = partitions_of(filters, table.partition_keys, table.partition_keys.len())[k];
        let part = row_key(keyspace, table.name, p);
        law_partition_prefix(keyspace, table.name, p, Seq::empty());
        assert(key.subrange(0, prefix.len() as int) =~= key.subrange(
            0,
            part.len() as int,
        ).subrange(0, prefix.len() as int));
    }
}

/// A table that was truncated is read as empty.
pub proof fn law_truncated_table_is_read_empty(
    e: Engines,
    keyspace: Seq<char>,
    table: TableView,
    plan: SelectView,
    fetched: Seq<(Seq<u8>, Seq<u8>)>,
)
    requires
        e.len() >= 1,
        only_found(
            engines_after_all(e, truncate_commands(e.len(), keyspace, table.name)),
            select_scans(e.len(), keyspace, table, plan.filters),
            fetched,
        ),
    ensures
        result_rows(plan, fetched, 0, 0, keyspace, table) == Ok::<
            Seq<Seq<ValueView>>,
            ErrorView,
        >(Seq::empty()),
{
    let after = engines_after_all(e, truncate_commands(e.len(), keyspace, table.name));
    let scans = select_scans(e.len(), keyspace, table, plan.filters);
    if fetched.len() > 0 {
        let k = choose|k: int|
            0 <= k < scans.len() && found_at(after, #[trigger] scans[k], fetched[0]);
        lemma_scan_in_table(e.len(), keyspace, table, plan.filters, k, fetched[0].0);
        law_truncate_empties_table(e, keyspace, table.name, scans[k].0, fetched[0].0);
    }
}

/// A sweep removes the keys that it found from the engine on which it found
/// them, and nothing else.
pub proof fn law_sweep_removes_entries(
    e: Engines,
    swept: int,
    entries: Seq<(Seq<u8>, Seq<u8>)>,
    engine: int,
    key: Seq<u8>,
)
    requires
        0 <= swept < e.len(),
        0 <= engine < e.len(),
    ensures
        ({
            let after = engines_after_all(e, removals(swept, entries));
            let found = exists|i: int| 0 <= i < entries.len() && #[trigger] entries[i].0 == key;
            &&& after.len() == e.len()
            &&& after[engine].contains_key(key) <==> e[engine].contains_key(key) && !(engine
                == swept && found)
            &&& after[engine].contains_key(key) ==> after[engine][key] == e[engine][key]
        }),
    decreases entries.len(),
{
    if entries.len() > 0 {
        let rest = entries.drop_last();
        law_sweep_removes_entries(e, swept, rest, engine, key);
        assert(removals(swept, entries).drop_last() =~= removals(swept, rest));
        assert(removals(swept, entries).last() == (CommandView::WriteNow {
            engine: swept,
            op: OpView::Delete { key: entries.last().0 },
        }));
        let found = exists|i: int| 0 <= i < entries.len() && #[trigger] entries[i].0 == key;
        let before = exists|i: int| 0 <= i < rest.len() && #[trigger] rest[i].0 == key;
        if before {
            let i = choose|i: int| 0 <= i < rest.len() && #[trigger] rest[i].0 == key;
            assert(entries[i].0 == key);
        }
        if found && entries.last().0 != key {
            let i = choose|i: int| 0 <= i < entries.len() && #[trigger] entries[i].0 == key;
            assert(rest[i].0 == key);
        }
        if entries.last().0 == key {
            assert(entries[entries.len() - 1].0 == key);
        }
    }
}

/// Once what a `DROP` sweeps is removed, `system_schema` holds no row that
/// describes it, whichever engine its rows are on.
pub proof fn law_swept_rows_are_gone(
    e: Engines,
    table: Seq<char>,
    names: Seq<Seq<char>>,
    sweeping: SweepingView,
    entries: Seq<(Seq<u8>, Seq<u8>)>,
    clustering: Seq<Seq<u8>>,
)
    requires
        e.len() > 0,
        names.len() > 0,
        scanned(e, seq![schema_scan(e.len(), table, names)], entries),
    ensures
        ({
            let scan = schema_scan(e.len(), table, names);
            held(
                engines_after_all(e, sweep_step(scan, sweeping, Ok(entries)).commands),
                row_place(e.len(), "system_schema"@, table, text_parts(names) + clustering),
            ) is None
        }),
{
    let n = e.len();
    let scan = schema_scan(n, table, names);
    let parts = text_parts(names);
    let place = row_place(n, "system_schema"@, table, parts + clustering);
    law_partition_on_one_engine(n, "system_schema"@, table, parts, clustering);
    law_partition_prefix("system_schema"@, table, parts, clustering);
    law_sweep_removes_entries(e, scan.0, entries, scan.0, place.1);
    if e[scan.0].contains_key(place.1) {
        let scans = seq![scan];
        assert(held(e, (scans[0].0, place.1)) is Some);
        let entry = (place.1, e[scan.0][place.1]);
        assert(entries.contains(entry));
        let i = choose|i: int| 0 <= i < entries.len() && entries[i] == entry;
        assert(entries[i].0 == place.1);
    }
}

/// Once a `DROP TABLE` is done, `system_schema.columns` describes no column of
/// the table, whichever engine its rows are on.
pub proof fn law_dropped_table_has_no_columns(
    e: Engines,
    d: CommonDrop,
    keyspace: Seq<char>,
    table: Seq<char>,
    entries: Seq<(Seq<u8>, Seq<u8>)>,
    column: Seq<u8>,
)
    requires
        e.len() > 0,
        !is_system(keyspace),
        ({
            let step = drop_table_step(e.len(), d, keyspace, table, true);
            scanned(engines_after_all(e, step.commands), seq![step.next->Sweep_0], entries)
        }),
    ensures
        ({
            let step = drop_table_step(e.len(), d, keyspace, table, true);
            let swept = sweep_step(step.next->Sweep_0, step.next->Sweep_1, Ok(entries));
            &&& swept.next is Done
            &&& held(
                engines_after_all(engines_after_all(e, step.commands), swept.commands),
                row_place(
                    e.len(),
                    "system_schema"@,
                    "columns"@,
                    text_parts(seq![keyspace, table]).push(column),
                ),
            ) is None
        }),
{
    let step = drop_table_step(e.len(), d, keyspace, table, true);
    let after = engines_after_all(e, step.commands);
    assert forall|i: int| 0 <= i < step.commands.len() implies acts_within(
        e.len(),
        #[trigger] step.commands[i],
    ) by {}
    lemma_engine_count(e, step.commands);
    let names = seq![keyspace, table];
    law_swept_rows_are_gone(after, "columns"@, names, step.next->Sweep_1, entries, seq![column]);
    assert(text_parts(names) + seq![column] =~= text_parts(names).push(column));
}

/// Whether a command acts on one of `n` engines, if on any.
spec fn acts_within(n: nat, c: CommandView) -> bool {
    match c {
        CommandView::WriteNow { engine, .. } => 0 <= engine < n,
        CommandView::Write { engine, .. } => 0 <= engine < n,
        _ => true,
    }
}

/// Commands on the engines that there are leave as many of them.
proof fn lemma_engine_count(e: Engines, commands: Seq<CommandView>)
    requires
        forall|i: int| 0 <= i < commands.len() ==> acts_within(e.len(), #[trigger] commands[i]),
    ensures
        engines_after_all(e, commands).len() == e.len(),
    decreases commands.len(),
{
    if commands.len() > 0 {
        let front = commands.drop_last();
        assert forall|i: int| 0 <= i < front.len() implies acts_within(
            e.len(),
            #[trigger] front[i],
        ) by {
            assert(front[i] == commands[i]);
        }
        lemma_engine_count(e, front);
        assert(acts_within(e.len(), commands[commands.len() - 1]));
    }
}

} // verus!
