//! What the statements that define keyspaces and tables do, and what the tables
//! of `system_schema` then say.

use crate::bytes::{has_prefix, lemma_be_len};
use crate::cql_value::{raw, typed, wire, wire_all, wire_pairs, ValueView};
use crate::ddl::{
    column_metadata, column_rows, key_listed, keyspace_metadata, replication_map, schema_cells,
    schema_row, table_metadata, text_parts, NamedValue,
};
use crate::effects::{is_column, lemma_is_column};
use crate::expr::Env;
use crate::keys::{
    cells_fit, data_prefix, decoded_row, law_key_round_trip, law_row_round_trip, nulls, parts_fit,
    row_bytes, table_key, with_cells,
};
use crate::laws::{key_holds, lemma_fill_key, readable};
use crate::protocol::server_options;
use crate::query::{
    data_step, keyspace_step, schema_step, sweep_step, table_step, MirrorView, NextView,
    ResponseView,
};
use crate::schema::{id_text, table_of, type_text, ColumnType, ColumnView, KeyspaceView, TableView};
use crate::select::{key_place, row_values};
use crate::storage::{
    delete_table_commands, engines_after_all, held, keyspace_after_all, law_dropped_is_forgotten,
    law_truncate_empties_table, row_place, table_after_all, CommandView, Engines, OpView,
};
use crate::system::{
    local_row, seed_commands, system_local, system_peers, system_schema_aggregates,
    system_schema_columns, system_schema_functions, system_schema_indexes,
    system_schema_keyspaces, system_schema_tables, system_schema_triggers, system_schema_types,
    system_schema_views,
};
use crate::text::{lemma_index_in, lemma_index_is, trimmed, unquoted};
use cql3_parser::cassandra_statement::CassandraStatement;
use cql3_parser::common::{FQName, Identifier};
use cql3_parser::common_drop::CommonDrop;
use cql3_parser::create_keyspace::CreateKeyspace;
use cql3_parser::create_table::CreateTable;
use vstd::prelude::*;
use vstd::utf8::{encode_utf8, is_ascii_chars, is_ascii_chars_encode_utf8};

verus! {

/// Whether a row of a table has that value in the column of that name.
pub open spec fn cell_is(
    row: Seq<ValueView>,
    def: TableView,
    name: Seq<char>,
    v: ValueView,
) -> bool {
    exists|c: int| #[trigger] is_column(def, name, c) && row[c] == v
}

/// Whether a row says what is told: texts in the columns of the key, and the
/// values under their names.
pub open spec fn row_says(
    row: Seq<ValueView>,
    def: TableView,
    key: Seq<Seq<char>>,
    told: Seq<NamedValue>,
) -> bool {
    &&& forall|i: int|
        0 <= i < key.len() ==> cell_is(
            row,
            def,
            def.key_names()[i],
            ValueView::Text(#[trigger] key[i]),
        )
    &&& forall|j: int|
        0 <= j < told.len() ==> cell_is(row, def, (#[trigger] told[j]).0, told[j].1)
}

/// Whether a command stores a row of a table of `system_schema`, under the key
/// that the texts are, that says what is told.
#[verifier::opaque]
pub open spec fn lists(
    n: nat,
    c: CommandView,
    def: TableView,
    key: Seq<Seq<char>>,
    told: Seq<NamedValue>,
) -> bool {
    c matches CommandView::WriteNow { engine, op: OpView::Put { key: k, val } } && (engine, k)
        == row_place(n, "system_schema"@, def.name, text_parts(key)) && (row_values(
        k,
        val,
        "system_schema"@,
        def,
    ) matches Ok(row) && row_says(row, def, key, told))
}

/// Whether a table of `system_schema` can hold a row: each text of the key has a
/// column of texts, and each value a column of its type outside the key.
#[verifier::opaque]
pub open spec fn hosts(def: TableView, key: Seq<Seq<char>>, told: Seq<NamedValue>) -> bool {
    &&& readable(def)
    &&& key.len() == def.key_names().len()
    &&& def.key_names().no_duplicates()
    &&& forall|i: int| 0 <= i < key.len() ==> encode_utf8(#[trigger] key[i]).len() <= u16::MAX
    &&& forall|i: int|
        0 <= i < key.len() ==> exists|c: int|
            is_column(def, #[trigger] def.key_names()[i], c) && (
            #[trigger] def.columns[c]).is_key() && def.columns[c].col_type is Text
    &&& forall|j: int|
        0 <= j < told.len() ==> exists|c: int|
            is_column(def, (#[trigger] told[j]).0, c) && !(#[trigger] def.columns[c]).is_key()
                && typed(told[j].1, def.columns[c].col_type)
    &&& forall|i: int, j: int|
        0 <= i < j < told.len() ==> (#[trigger] told[i]).0 != (#[trigger] told[j]).0
}

proof fn lemma_schema_cells(table: TableView, cols: Seq<NamedValue>, i: int)
    requires
        0 <= i <= cols.len(),
        forall|j: int| 0 <= j < cols.len() ==> table.index_of((#[trigger] cols[j]).0) is Some,
    ensures
        schema_cells(table, cols, i) is Ok,
        schema_cells(table, cols, i)->Ok_0.len() == cols.len() - i,
        forall|j: int|
            0 <= j < cols.len() - i ==> #[trigger] schema_cells(table, cols, i)->Ok_0[j] == (
                table.index_of(cols[i + j].0)->Some_0 as u16,
                cols[i + j].1,
            ),
    decreases cols.len() - i,
{
    if i < cols.len() {
        lemma_schema_cells(table, cols, i + 1);
        let rest = schema_cells(table, cols, i + 1)->Ok_0;
        assert(table.index_of(cols[i].0) is Some);
        let all = schema_cells(table, cols, i)->Ok_0;
        assert forall|j: int| 0 <= j < cols.len() - i implies #[trigger] all[j] == (
            table.index_of(cols[i + j].0)->Some_0 as u16,
            cols[i + j].1,
        ) by {
            if j > 0 {
                assert(all[j] == rest[j - 1]);
                assert(cols[i + j] == cols[(i + 1) + (j - 1)]);
            }
        }
    }
}

proof fn lemma_with_cells_len(values: Seq<ValueView>, cells: Seq<(u16, ValueView)>)
    requires
        forall|k: int| 0 <= k < cells.len() ==> (#[trigger] cells[k]).0 < values.len(),
    ensures
        with_cells(values, cells).len() == values.len(),
    decreases cells.len(),
{
    if cells.len() > 0 {
        let front = cells.drop_last();
        assert forall|k: int| 0 <= k < front.len() implies (#[trigger] front[k]).0
            < values.len() by {
            assert(front[k] == cells[k]);
        }
        lemma_with_cells_len(values, front);
        assert(cells[cells.len() - 1].0 < values.len());
    }
}

proof fn lemma_with_cells_at(values: Seq<ValueView>, cells: Seq<(u16, ValueView)>, j: int)
    requires
        0 <= j < cells.len(),
        forall|k: int| 0 <= k < cells.len() ==> (#[trigger] cells[k]).0 < values.len(),
        forall|k: int| j < k < cells.len() ==> (#[trigger] cells[k]).0 != cells[j].0,
    ensures
        with_cells(values, cells)[cells[j].0 as int] == cells[j].1,
    decreases cells.len(),
{
    let front = cells.drop_last();
    assert forall|k: int| 0 <= k < front.len() implies (#[trigger] front[k]).0 < values.len() by {
        assert(front[k] == cells[k]);
    }
    lemma_with_cells_len(values, front);
    assert(cells[cells.len() - 1].0 < values.len());
    if j < cells.len() - 1 {
        assert forall|k: int| j < k < front.len() implies (#[trigger] front[k]).0 != front[j].0 by {
            assert(front[k] == cells[k]);
        }
        lemma_with_cells_at(values, front, j);
        assert(cells[cells.len() - 1].0 != cells[j].0);
    }
}

/// A row of `system_schema` is stored where it is looked for, and says what it
/// was made of.
proof fn lemma_listed(n: nat, def: TableView, key: Seq<Seq<char>>, told: Seq<NamedValue>)
    requires
        hosts(def, key, told),
    ensures
        schema_row(n, def.name, Some(def), key, told) matches Ok(c) && lists(
            n,
            c,
            def,
            key,
            told,
        ),
{
    reveal(hosts);
    reveal(lists);
    let names = def.key_names();
    let parts = text_parts(key);
    assert forall|j: int| 0 <= j < told.len() implies def.index_of((#[trigger] told[j]).0)
        is Some by {
        lemma_is_column(def, told[j].0);
    }
    lemma_schema_cells(def, told, 0);
    let cells = schema_cells(def, told, 0)->Ok_0;
    assert forall|j: int| 0 <= j < cells.len() implies {
        let c = def.index_of(told[j].0)->Some_0;
        &&& (#[trigger] cells[j]) == (c as u16, told[j].1)
        &&& 0 <= c < def.columns.len()
        &&& is_column(def, told[j].0, c)
        &&& !def.columns[c].is_key()
        &&& typed(told[j].1, def.columns[c].col_type)
    } by {
        lemma_is_column(def, told[j].0);
        assert(told[0 + j] == told[j]);
        let d = choose|d: int|
            is_column(def, told[j].0, d) && !(#[trigger] def.columns[d]).is_key() && typed(
                told[j].1,
                def.columns[d].col_type,
            );
        assert(def.index_of(told[j].0) == Some(d));
    }
    assert(cells_fit(cells, def.columns)) by {
        assert forall|j: int| 0 <= j < cells.len() implies {
            &&& (#[trigger] cells[j]).0 < def.columns.len()
            &&& cells[j].1 is Null || typed(cells[j].1, def.columns[cells[j].0 as int].col_type)
        } by {}
    }
    law_row_round_trip(cells, def.columns);
    let start = with_cells(nulls(def.columns.len()), cells);
    lemma_with_cells_len(nulls(def.columns.len()), cells);
    let values = Seq::new(
        def.columns.len(),
        |c: int|
            if def.columns[c].is_key() {
                ValueView::Text(key[key_place(def, c)->Some_0])
            } else {
                start[c]
            },
    );
    assert(parts_fit(parts)) by {
        assert forall|i: int| 0 <= i < parts.len() implies (#[trigger] parts[i]).len()
            <= u16::MAX by {
            assert(parts[i] == encode_utf8(key[i]));
        }
    }
    assert forall|c: int| 0 <= c < def.columns.len() && def.columns[c].is_key() implies {
        let v = #[trigger] values[c];
        match key_place(def, c) {
            Some(at) => 0 <= at < parts.len() && typed(v, def.columns[c].col_type) && parts[at]
                == raw(v),
            None => false,
        }
    } by {
        let name = def.columns[c].name;
        lemma_index_in(names, name);
        assert(names.contains(name));
        let i = names.index_of(name);
        assert(names[i] == name);
        let at = key_place(def, c)->Some_0;
        assert(names[at] == name);
        let d = choose|d: int|
            is_column(def, names[at], d) && (#[trigger] def.columns[d]).is_key()
                && def.columns[d].col_type is Text;
        lemma_is_column(def, name);
        assert(def.index_of(name) == Some(d));
        assert(d == c);
        assert(parts[at] == encode_utf8(key[at]));
    }
    assert(key_holds(parts, values, def));
    lemma_fill_key(start, parts, values, def, 0);
    law_key_round_trip(data_prefix("system_schema"@, def.name), parts);
    let place = row_place(n, "system_schema"@, def.name, parts);
    let row = row_values(place.1, row_bytes(cells), "system_schema"@, def)->Ok_0;
    assert forall|i: int| 0 <= i < key.len() implies cell_is(
        row,
        def,
        names[i],
        ValueView::Text(#[trigger] key[i]),
    ) by {
        let d = choose|d: int|
            is_column(def, names[i], d) && (#[trigger] def.columns[d]).is_key()
                && def.columns[d].col_type is Text;
        assert(is_column(def, names[i], d));
        lemma_index_in(names, names[i]);
        lemma_index_is(names, names[i], i);
        assert(row[d] == values[d]);
    }
    assert forall|j: int| 0 <= j < told.len() implies cell_is(
        row,
        def,
        (#[trigger] told[j]).0,
        told[j].1,
    ) by {
        let c = def.index_of(told[j].0)->Some_0;
        assert(cells[j] == (c as u16, told[j].1));
        assert forall|k: int| j < k < cells.len() implies (#[trigger] cells[k]).0
            != cells[j].0 by {
            let d = def.index_of(told[k].0)->Some_0;
            assert(cells[k] == (d as u16, told[k].1));
            assert(told[j].0 != told[k].0);
            assert(def.columns[c].name != def.columns[d].name);
        }
        assert forall|k: int| 0 <= k < cells.len() implies (#[trigger] cells[k]).0 < nulls(
            def.columns.len(),
        ).len() by {}
        lemma_with_cells_at(nulls(def.columns.len()), cells, j);
        assert(is_column(def, told[j].0, c));
        assert(row[c] == start[c]);
    }
}

/// What is told of fewer things holds where all of it holds.
proof fn lemma_lists_some(
    n: nat,
    c: CommandView,
    def: TableView,
    key: Seq<Seq<char>>,
    all: Seq<NamedValue>,
    told: Seq<NamedValue>,
)
    requires
        lists(n, c, def, key, all),
        forall|j: int| 0 <= j < told.len() ==> all.contains(#[trigger] told[j]),
    ensures
        lists(n, c, def, key, told),
{
    reveal(lists);
    if let CommandView::WriteNow { engine, op: OpView::Put { key: k, val } } = c {
        let row = row_values(k, val, "system_schema"@, def)->Ok_0;
        assert forall|j: int| 0 <= j < told.len() implies cell_is(
            row,
            def,
            (#[trigger] told[j]).0,
            told[j].1,
        ) by {
            assert(all.contains(told[j]));
            let i = all.index_of(told[j]);
            assert(all[i] == told[j]);
        }
    }
}

/// The options of a keyspace without the white space and the quotes around them.
pub open spec fn options_shown(
    shown: Seq<(ValueView, ValueView)>,
    options: Seq<(Seq<char>, Seq<char>)>,
) -> bool {
    shown.len() == options.len() && forall|i: int|
        0 <= i < options.len() ==> #[trigger] shown[i] == (
            ValueView::Text(unquoted(trimmed(options[i].0))),
            ValueView::Text(unquoted(trimmed(options[i].1))),
        )
}

/// A `CREATE KEYSPACE` of a new name makes a keyspace of that name with the
/// replication that it gives. It then lists the keyspace in
/// `system_schema.keyspaces` and answers that it was created.
pub proof fn law_keyspaces_are_created(
    n: nat,
    ks: CreateKeyspace,
    def: TableView,
    shown: Seq<(ValueView, ValueView)>,
    cached: Option<KeyspaceView>,
)
    requires
        id_text(ks.name) != "system"@ && id_text(ks.name) != "system_schema"@,
        def.name == "keyspaces"@,
        ({
            let first = keyspace_step(n, CassandraStatement::CreateKeyspace(ks), Ok(false));
            first.next matches NextView::Schema(MirrorView::Keyspace(k)) && hosts(
                def,
                seq![k.name],
                keyspace_metadata(k),
            ) && options_shown(shown, k.replication)
        }),
    ensures
        ({
            let name = id_text(ks.name);
            let first = keyspace_step(n, CassandraStatement::CreateKeyspace(ks), Ok(false));
            let second = schema_step(n, first.next->Schema_0, Ok(Some(def)));
            &&& keyspace_after_all(cached, first.commands, name) matches Some(k) && k.name == name
                && k.replication.len() == ks.replication@.len() && forall|i: int|
                0 <= i < k.replication.len() ==> #[trigger] k.replication[i] == (
                    ks.replication@[i].0@,
                    ks.replication@[i].1@,
                )
            &&& second.commands.len() == 1
            &&& lists(
                n,
                second.commands[0],
                def,
                seq![name],
                seq![
                    ("replication"@, ValueView::MapOf(shown)),
                    ("durable_writes"@, ValueView::Boolean(true)),
                ],
            )
            &&& second.next == NextView::Done(
                Ok(
                    ResponseView::SchemaChange {
                        change: "CREATED"@,
                        target: "KEYSPACE"@,
                        keyspace: name,
                        table: ""@,
                    },
                ),
            )
        }),
{
    let name = id_text(ks.name);
    let first = keyspace_step(n, CassandraStatement::CreateKeyspace(ks), Ok(false));
    assert(first.commands.drop_last() =~= Seq::<CommandView>::empty());
    assert(keyspace_after_all(cached, first.commands.drop_last(), name) == cached);
    if let NextView::Schema(MirrorView::Keyspace(k)) = first.next {
        let all = keyspace_metadata(k);
        lemma_listed(n, def, seq![k.name], all);
        assert(replication_map(k.replication) =~= shown);
        let told = seq![
            ("replication"@, ValueView::MapOf(shown)),
            ("durable_writes"@, ValueView::Boolean(true)),
        ];
        assert(told[0] == all[1] && told[1] == all[0]);
        let c = schema_row(n, "keyspaces"@, Some(def), seq![k.name], all)->Ok_0;
        lemma_lists_some(n, c, def, seq![k.name], all, told);
    }
}

/// A `CREATE KEYSPACE` or a `CREATE TABLE` of a name that is taken writes nothing.
/// It is refused, or done with `IF NOT EXISTS`. A `DROP` of a name that is not
/// taken writes nothing either; it is refused, or done with `IF EXISTS`.
pub proof fn law_taken_names_are_kept(
    n: nat,
    env: Env,
    ks: CreateKeyspace,
    t: CreateTable,
    d: CommonDrop,
    keyspace: Seq<char>,
    table: Seq<char>,
    def: TableView,
)
    ensures
        ({
            let step = keyspace_step(n, CassandraStatement::CreateKeyspace(ks), Ok(true));
            &&& step.commands.len() == 0
            &&& step.next matches NextView::Done(r) && (r is Ok <==> ks.if_not_exists) && (r
                matches Ok(x) ==> x is Void)
        }),
        ({
            let step = table_step(
                n,
                env,
                CassandraStatement::CreateTable(t),
                keyspace,
                table,
                Ok(Some(def)),
            );
            &&& step.commands.len() == 0
            &&& step.next matches NextView::Done(r) && (r is Ok <==> t.if_not_exists) && (r
                matches Ok(x) ==> x is Void)
        }),
        ({
            let step = keyspace_step(n, CassandraStatement::DropKeyspace(d), Ok(false));
            &&& step.commands.len() == 0
            &&& step.next matches NextView::Done(r) && (r is Ok <==> d.if_exists) && (r matches Ok(
                x,
            ) ==> x is Void)
        }),
        ({
            let step = table_step(
                n,
                env,
                CassandraStatement::DropTable(d),
                keyspace,
                table,
                Ok(None),
            );
            &&& step.commands.len() == 0
            &&& step.next matches NextView::Done(r) && (r is Ok <==> d.if_exists) && (r matches Ok(
                x,
            ) ==> x is Void)
        }),
{
}

/// The options that every table is listed with.
pub open spec fn standard_options() -> Seq<NamedValue> {
    seq![
        ("comment"@, ValueView::Text(""@)),
        ("caching"@, ValueView::MapOf(Seq::empty())),
        ("compression"@, ValueView::MapOf(Seq::empty())),
        ("extensions"@, ValueView::MapOf(Seq::empty())),
        ("flags"@, ValueView::SetOf(seq![ValueView::Text("compound"@)])),
        ("default_time_to_live"@, ValueView::Int(0)),
        ("gc_grace_seconds"@, ValueView::Int(864000)),
        ("min_index_interval"@, ValueView::Int(128)),
        ("max_index_interval"@, ValueView::Int(2048)),
        ("memtable_flush_period_in_ms"@, ValueView::Int(0)),
        ("speculative_retry"@, ValueView::Text("99PERCENTILE"@)),
    ]
}

/// A `CREATE TABLE` of a new name outside the system keyspaces, with a partition
/// key and types that the server has, makes the table that it declares. It then
/// lists the table in `system_schema.tables` and goes on to list its columns.
pub proof fn law_tables_are_created(
    n: nat,
    env: Env,
    t: CreateTable,
    keyspace: Seq<char>,
    table: Seq<char>,
    def: TableView,
    cached: Option<TableView>,
)
    requires
        keyspace != "system"@ && keyspace != "system_schema"@,
        table_of(keyspace, table, t) matches Some(made) && made.partition_keys.len() > 0
            && made.columns.len() > 0,
        def.name == "tables"@,
        hosts(def, seq![keyspace, table], table_metadata()),
    ensures
        ({
            let made = table_of(keyspace, table, t)->Some_0;
            let first = table_step(
                n,
                env,
                CassandraStatement::CreateTable(t),
                keyspace,
                table,
                Ok(None),
            );
            let second = schema_step(n, first.next->Schema_0, Ok(Some(def)));
            &&& table_after_all(cached, first.commands, keyspace, table) == Some(made)
            &&& first.next is Schema
            &&& second.commands.len() == 1
            &&& lists(n, second.commands[0], def, seq![keyspace, table], standard_options())
            &&& second.next == NextView::Schema(MirrorView::Columns(made))
        }),
{
    let made = table_of(keyspace, table, t)->Some_0;
    let first = table_step(
        n,
        env,
        CassandraStatement::CreateTable(t),
        keyspace,
        table,
        Ok(None),
    );
    assert(first.commands.drop_last() =~= Seq::<CommandView>::empty());
    assert(table_after_all(cached, first.commands.drop_last(), keyspace, table) == cached);
    let all = table_metadata();
    let told = standard_options();
    lemma_listed(n, def, seq![keyspace, table], all);
    let c = schema_row(n, "tables"@, Some(def), seq![keyspace, table], all)->Ok_0;
    assert forall|j: int| 0 <= j < told.len() implies all.contains(#[trigger] told[j]) by {
        assert(told[0] == all[2] && told[1] == all[1] && told[2] == all[4] && told[3] == all[8]
            && told[4] == all[9] && told[5] == all[7] && told[6] == all[10] && told[7] == all[13]
            && told[8] == all[11] && told[9] == all[12] && told[10] == all[15]);
    }
    lemma_lists_some(n, c, def, seq![keyspace, table], all, told);
}

/// Whether a name stands at that place of a list, and not before.
pub open spec fn stands_at(names: Seq<Seq<char>>, name: Seq<char>, at: int) -> bool {
    &&& 0 <= at < names.len()
    &&& names[at] == name
    &&& forall|j: int| 0 <= j < at ==> #[trigger] names[j] != name
}

/// What `system_schema.columns` says of a column: its type, and whether and where
/// it stands in the key.
pub open spec fn column_told(table: TableView, c: ColumnView, at: int) -> Seq<NamedValue> {
    seq![
        ("type"@, ValueView::Text(type_text(c.col_type))),
        (
            "kind"@,
            ValueView::Text(
                if c.is_partition_key {
                    "partition_key"@
                } else if c.is_clustering {
                    "clustering"@
                } else {
                    "regular"@
                },
            ),
        ),
        (
            "position"@,
            ValueView::Int(
                if c.is_partition_key || c.is_clustering {
                    at as i32
                } else {
                    (-1) as i32
                },
            ),
        ),
        (
            "clustering_order"@,
            ValueView::Text(
                if c.is_clustering && !c.is_partition_key {
                    "ASC"@
                } else {
                    "NONE"@
                },
            ),
        ),
        ("column_name_bytes"@, ValueView::Blob(encode_utf8(c.name))),
    ]
}

/// Whether a column stands at that place of its part of the key, if it is in it.
pub open spec fn key_stands_at(table: TableView, c: ColumnView, at: int) -> bool {
    if c.is_partition_key {
        stands_at(table.partition_keys, c.name, at)
    } else if c.is_clustering {
        stands_at(table.clustering_keys, c.name, at)
    } else {
        true
    }
}

proof fn lemma_column_listed(n: nat, def: TableView, table: TableView, c: ColumnView, at: int)
    requires
        def.name == "columns"@,
        key_stands_at(table, c, at),
        hosts(def, seq![table.keyspace, table.name, c.name], column_metadata(table, c)),
    ensures
        key_listed(table, c),
        schema_row(
            n,
            "columns"@,
            Some(def),
            seq![table.keyspace, table.name, c.name],
            column_metadata(table, c),
        ) matches Ok(cmd) && lists(
            n,
            cmd,
            def,
            seq![table.keyspace, table.name, c.name],
            column_told(table, c, at),
        ),
{
    let key = seq![table.keyspace, table.name, c.name];
    let all = column_metadata(table, c);
    let told = column_told(table, c, at);
    lemma_listed(n, def, key, all);
    if c.is_partition_key {
        lemma_index_is(table.partition_keys, c.name, at);
    } else if c.is_clustering {
        lemma_index_is(table.clustering_keys, c.name, at);
    }
    let cmd = schema_row(n, "columns"@, Some(def), key, all)->Ok_0;
    assert forall|j: int| 0 <= j < told.len() implies all.contains(#[trigger] told[j]) by {
        assert(told[0] == all[4] && told[1] == all[2] && told[2] == all[3] && told[3] == all[0]
            && told[4] == all[1]);
    }
    lemma_lists_some(n, cmd, def, key, all, told);
}

proof fn lemma_columns_listed(n: nat, def: TableView, table: TableView, places: Seq<int>, i: int)
    requires
        def.name == "columns"@,
        0 <= i <= table.columns.len() == places.len(),
        forall|k: int|
            0 <= k < table.columns.len() ==> #[trigger] key_stands_at(
                table,
                table.columns[k],
                places[k],
            ),
        forall|k: int|
            0 <= k < table.columns.len() ==> hosts(
                def,
                seq![table.keyspace, table.name, (#[trigger] table.columns[k]).name],
                column_metadata(table, table.columns[k]),
            ),
    ensures
        column_rows(n, Some(def), table, i).1 is None,
        column_rows(n, Some(def), table, i).0.len() == table.columns.len() - i,
        forall|k: int|
            0 <= k < table.columns.len() - i ==> lists(
                n,
                #[trigger] column_rows(n, Some(def), table, i).0[k],
                def,
                seq![table.keyspace, table.name, table.columns[i + k].name],
                column_told(table, table.columns[i + k], places[i + k]),
            ),
    decreases table.columns.len() - i,
{
    if i < table.columns.len() {
        lemma_columns_listed(n, def, table, places, i + 1);
        let c = table.columns[i];
        assert(key_stands_at(table, table.columns[i], places[i]));
        lemma_column_listed(n, def, table, c, places[i]);
        let all = column_rows(n, Some(def), table, i).0;
        let rest = column_rows(n, Some(def), table, i + 1).0;
        assert forall|k: int| 0 <= k < table.columns.len() - i implies lists(
            n,
            #[trigger] all[k],
            def,
            seq![table.keyspace, table.name, table.columns[i + k].name],
            column_told(table, table.columns[i + k], places[i + k]),
        ) by {
            if k > 0 {
                assert(all[k] == rest[k - 1]);
                assert(table.columns[i + k] == table.columns[(i + 1) + (k - 1)]);
                assert(places[i + k] == places[(i + 1) + (k - 1)]);
            }
        }
    }
}

/// At the end of a `CREATE TABLE` each column is listed in
/// `system_schema.columns`, under its table and its name, with its type and its
/// place in the key. The client is told that the table was created.
pub proof fn law_columns_are_listed(
    n: nat,
    def: TableView,
    table: TableView,
    places: Seq<int>,
)
    requires
        def.name == "columns"@,
        table.columns.len() == places.len(),
        forall|k: int|
            0 <= k < table.columns.len() ==> #[trigger] key_stands_at(
                table,
                table.columns[k],
                places[k],
            ),
        forall|k: int|
            0 <= k < table.columns.len() ==> hosts(
                def,
                seq![table.keyspace, table.name, (#[trigger] table.columns[k]).name],
                column_metadata(table, table.columns[k]),
            ),
    ensures
        ({
            let step = schema_step(n, MirrorView::Columns(table), Ok(Some(def)));
            &&& step.commands.len() == table.columns.len()
            &&& forall|k: int|
                0 <= k < table.columns.len() ==> lists(
                    n,
                    #[trigger] step.commands[k],
                    def,
                    seq![table.keyspace, table.name, table.columns[k].name],
                    column_told(table, table.columns[k], places[k]),
                )
            &&& step.next == NextView::Done(
                Ok(
                    ResponseView::SchemaChange {
                        change: "CREATED"@,
                        target: "TABLE"@,
                        keyspace: table.keyspace,
                        table: table.name,
                    },
                ),
            )
        }),
{
    lemma_columns_listed(n, def, table, places, 0);
    let step = schema_step(n, MirrorView::Columns(table), Ok(Some(def)));
    assert forall|k: int| 0 <= k < table.columns.len() implies lists(
        n,
        #[trigger] step.commands[k],
        def,
        seq![table.keyspace, table.name, table.columns[k].name],
        column_told(table, table.columns[k], places[k]),
    ) by {
        assert(table.columns[0 + k] == table.columns[k]);
        assert(places[0 + k] == places[k]);
        assert(step.commands[k] == column_rows(n, Some(def), table, 0).0[k]);
    }
}

/// A `USE` of a keyspace that exists moves the session to it, and to no other. It
/// writes nothing.
pub proof fn law_use_moves_to_its_keyspace(n: nat, id: Identifier)
    ensures
        ({
            let there = keyspace_step(n, CassandraStatement::Use(id), Ok(true));
            let gone = keyspace_step(n, CassandraStatement::Use(id), Ok(false));
            &&& there.commands.len() == 0
            &&& there.next == NextView::Done(Ok(ResponseView::SetKeyspace(id_text(id))))
            &&& gone.commands.len() == 0
            &&& gone.next matches NextView::Done(r) && r is Err
        }),
{
}

/// A `DROP` of a keyspace or a table outside the system keyspaces forgets its
/// definition. When what is listed of it in `system_schema` is removed too, the
/// client is told that it was dropped.
pub proof fn law_dropped_is_gone(
    n: nat,
    env: Env,
    d: CommonDrop,
    keyspace: Seq<char>,
    table: Seq<char>,
    def: TableView,
    cached: Option<TableView>,
    cached_keyspace: Option<KeyspaceView>,
    found: Seq<Seq<(Seq<u8>, Seq<u8>)>>,
)
    requires
        keyspace != "system"@ && keyspace != "system_schema"@,
        found.len() == 3,
    ensures
        ({
            let step = table_step(
                n,
                env,
                CassandraStatement::DropTable(d),
                keyspace,
                table,
                Ok(Some(def)),
            );
            &&& table_after_all(cached, step.commands, keyspace, table) is None
            &&& step.next is Sweep
            &&& sweep_step(step.next->Sweep_0, step.next->Sweep_1, Ok(found[0])).next
                == NextView::Done(
                Ok(
                    ResponseView::SchemaChange {
                        change: "DROPPED"@,
                        target: "TABLE"@,
                        keyspace,
                        table,
                    },
                ),
            )
        }),
        id_text(d.name.name) == keyspace ==> {
            let first = keyspace_step(n, CassandraStatement::DropKeyspace(d), Ok(true));
            let second = sweep_step(first.next->Sweep_0, first.next->Sweep_1, Ok(found[0]));
            let third = sweep_step(second.next->Sweep_0, second.next->Sweep_1, Ok(found[1]));
            &&& keyspace_after_all(cached_keyspace, first.commands, keyspace) is None
            &&& table_after_all(cached, first.commands, keyspace, table) is None
            &&& first.next is Sweep && second.next is Sweep && third.next is Sweep
            &&& sweep_step(third.next->Sweep_0, third.next->Sweep_1, Ok(found[2])).next
                == NextView::Done(
                Ok(
                    ResponseView::SchemaChange {
                        change: "DROPPED"@,
                        target: "KEYSPACE"@,
                        keyspace,
                        table: ""@,
                    },
                ),
            )
        },
{
    law_dropped_is_forgotten(n, keyspace, table, cached, cached_keyspace);
    let step = table_step(
        n,
        env,
        CassandraStatement::DropTable(d),
        keyspace,
        table,
        Ok(Some(def)),
    );
    assert(step.commands.drop_last() =~= delete_table_commands(n, keyspace, table));
}

/// A `TRUNCATE` of a table outside the system keyspaces removes the rows of the
/// table from every engine, and nothing else.
pub proof fn law_truncate_removes_rows(
    e: Engines,
    env: Env,
    name: FQName,
    keyspace: Seq<char>,
    table: TableView,
    parts: Seq<Seq<u8>>,
    engine: int,
    key: Seq<u8>,
)
    requires
        keyspace != "system"@ && keyspace != "system_schema"@,
        0 <= engine < e.len(),
    ensures
        ({
            let step = data_step(
                e.len(),
                env,
                CassandraStatement::Truncate(name),
                keyspace,
                table.name,
                table,
            );
            let after = engines_after_all(e, step.commands);
            let row = row_place(e.len(), keyspace, table.name, parts);
            &&& step.next == NextView::Done(Ok(ResponseView::Void))
            &&& held(after, (engine, row.1)) is None
            &&& !has_prefix(
                key,
                data_prefix(keyspace, table.name),
            ) ==> held(after, (engine, key)) == held(e, (engine, key))
        }),
{
    let row = row_place(e.len(), keyspace, table.name, parts);
    let prefix = data_prefix(keyspace, table.name);
    law_truncate_empties_table(e, keyspace, table.name, engine, key);
    law_truncate_empties_table(e, keyspace, table.name, engine, row.1);
    assert(row.1.subrange(0, prefix.len() as int) =~= prefix);
}

/// What a client finds in `system.local`: who the server is and what it speaks.
pub open spec fn local_told(host_id: Seq<u8>, schema_version: Seq<u8>) -> Seq<NamedValue> {
    let here = seq![127u8, 0, 0, 1];
    seq![
        ("key"@, ValueView::Text("local"@)),
        ("bootstrapped"@, ValueView::Text("COMPLETED"@)),
        ("cluster_name"@, ValueView::Text("RhydaDB Cluster"@)),
        ("cql_version"@, ValueView::Text(server_options()[0].1[0])),
        ("native_protocol_version"@, ValueView::Text(server_options()[2].1[0])),
        ("data_center"@, ValueView::Text("datacenter1"@)),
        ("rack"@, ValueView::Text("rack1"@)),
        ("partitioner"@, ValueView::Text("org.apache.cassandra.dht.Murmur3Partitioner"@)),
        ("host_id"@, ValueView::Uuid(host_id)),
        ("schema_version"@, ValueView::Uuid(schema_version)),
        ("rpc_address"@, ValueView::Inet(here)),
        ("listen_address"@, ValueView::Inet(here)),
        ("broadcast_address"@, ValueView::Inet(here)),
        ("release_version"@, ValueView::Text("4.0.7"@)),
        ("gossip_generation"@, ValueView::Int(0)),
        ("tokens"@, ValueView::SetOf(seq![ValueView::Text("-9223372036854775808"@)])),
    ]
}

/// Whether a value stands in a row under the name of a column of a table.
pub open spec fn named_in(columns: Seq<ColumnView>, row: Seq<ValueView>, told: NamedValue) -> bool {
    exists|c: int|
        0 <= c < columns.len() && #[trigger] columns[c].name == told.0 && row[c] == told.1
}

proof fn lemma_ascii_text(s: Seq<char>)
    requires
        is_ascii_chars(s),
        s.len() <= 100,
    ensures
        typed(ValueView::Text(s), ColumnType::Text),
        raw(ValueView::Text(s)).len() <= 100,
{
    is_ascii_chars_encode_utf8(s);
}

proof fn lemma_local_cell(host_id: Seq<u8>, schema_version: Seq<u8>, i: int)
    requires
        host_id.len() == 16,
        schema_version.len() == 16,
        0 <= i < 16,
    ensures
        local_row(host_id, schema_version)[i].0 == i,
        typed(local_row(host_id, schema_version)[i].1, system_local().columns[i].col_type),
{
    reveal(local_row);
    reveal(system_local);
    let cells = local_row(host_id, schema_version);
    let columns = system_local().columns;
    reveal_strlit("local");
    reveal_strlit("COMPLETED");
    reveal_strlit("RhydaDB Cluster");
    reveal_strlit("3.4.5");
    reveal_strlit("datacenter1");
    reveal_strlit("4");
    reveal_strlit("org.apache.cassandra.dht.Murmur3Partitioner");
    reveal_strlit("rack1");
    reveal_strlit("4.0.7");
    reveal_strlit("-9223372036854775808");
    lemma_ascii_text("local"@);
    lemma_ascii_text("COMPLETED"@);
    lemma_ascii_text("RhydaDB Cluster"@);
    lemma_ascii_text("3.4.5"@);
    lemma_ascii_text("datacenter1"@);
    lemma_ascii_text("4"@);
    lemma_ascii_text("org.apache.cassandra.dht.Murmur3Partitioner"@);
    lemma_ascii_text("rack1"@);
    lemma_ascii_text("4.0.7"@);
    lemma_ascii_text("-9223372036854775808"@);
    lemma_be_len(0, 4);
    if i == 0 {
        assert(cells[0].0 == 0);
    } else if i == 1 {
        assert(cells[1].0 == 1);
    } else if i == 2 {
        assert(cells[2].0 == 2);
    } else if i == 3 {
        assert(cells[3].0 == 3);
    } else if i == 4 {
        assert(cells[4].0 == 4);
    } else if i == 5 {
        assert(cells[5].0 == 5);
    } else if i == 6 {
        assert(cells[6].0 == 6);
    } else if i == 7 {
        assert(cells[7].0 == 7);
    } else if i == 8 {
        assert(cells[8].0 == 8);
    } else if i == 9 {
        assert(cells[9].0 == 9);
    } else if i == 10 {
        assert(cells[10].0 == 10);
    } else if i == 11 {
        assert(cells[11].0 == 11);
    } else if i == 12 {
        assert(cells[12].0 == 12);
    } else if i == 13 {
        assert(cells[13].0 == 13);
    } else if i == 14 {
        assert(cells[14].0 == 14);
    } else if i == 15 {
        assert(cells[15].0 == 15);
        let token = ValueView::Text("-9223372036854775808"@);
        let vs = seq![token];
        let v = ValueView::SetOf(vs);
        assert(cells[15].1 == v);
        assert(vs.drop_last() =~= Seq::<ValueView>::empty());
        assert(wire_all(vs) == wire_all(vs.drop_last()) + wire(token));
        assert(wire_all(vs.drop_last()).len() == 0);
        lemma_be_len((1i32 as u32) as nat, 4);
        lemma_be_len((raw(token).len() as i32 as u32) as nat, 4);
        assert(raw(v).len() <= 200);
        assert(typed(v, ColumnType::SetOf(Box::new(ColumnType::Text))));
    }
}

/// The row of `system.local` is read back with all that a client is to find there;
/// the versions are those that the server offers.
pub proof fn law_local_row_describes_the_server(host_id: Seq<u8>, schema_version: Seq<u8>)
    requires
        host_id.len() == 16,
        schema_version.len() == 16,
    ensures
        ({
            let columns = system_local().columns;
            let row = decoded_row(row_bytes(local_row(host_id, schema_version)), columns);
            let told = local_told(host_id, schema_version);
            &&& row is Ok
            &&& row->Ok_0.len() == columns.len()
            &&& forall|j: int|
                0 <= j < told.len() ==> named_in(columns, row->Ok_0, #[trigger] told[j])
        }),
{
    reveal(local_row);
    reveal(system_local);
    let columns = system_local().columns;
    let cells = local_row(host_id, schema_version);
    let told = local_told(host_id, schema_version);
    assert forall|i: int| 0 <= i < cells.len() implies (#[trigger] cells[i]).0 == i && typed(
        cells[i].1,
        columns[i].col_type,
    ) by {
        lemma_local_cell(host_id, schema_version, i);
    }
    assert(cells_fit(cells, columns));
    law_row_round_trip(cells, columns);
    let start = nulls(columns.len());
    let row = with_cells(start, cells);
    lemma_with_cells_len(start, cells);
    assert forall|i: int| 0 <= i < cells.len() implies #[trigger] row[i] == cells[i].1 by {
        assert(cells[i].0 == i);
        assert forall|k: int| i < k < cells.len() implies (#[trigger] cells[k]).0
            != cells[i].0 by {
            assert(cells[k].0 == k);
        }
        lemma_with_cells_at(start, cells, i);
    }
    assert(columns[0].name == told[0].0 && row[0] == told[0].1);
    assert(columns[1].name == told[1].0 && row[1] == told[1].1);
    assert(columns[3].name == told[2].0 && row[3] == told[2].1);
    assert(columns[4].name == told[3].0 && row[4] == told[3].1);
    assert(columns[9].name == told[4].0 && row[9] == told[4].1);
    assert(columns[5].name == told[5].0 && row[5] == told[5].1);
    assert(columns[11].name == told[6].0 && row[11] == told[6].1);
    assert(columns[10].name == told[7].0 && row[10] == told[7].1);
    assert(columns[7].name == told[8].0 && row[7] == told[8].1);
    assert(columns[14].name == told[9].0 && row[14] == told[9].1);
    assert(columns[13].name == told[10].0 && row[13] == told[10].1);
    assert(columns[8].name == told[11].0 && row[8] == told[11].1);
    assert(columns[2].name == told[12].0 && row[2] == told[12].1);
    assert(columns[12].name == told[13].0 && row[12] == told[13].1);
    assert(columns[6].name == told[14].0 && row[6] == told[14].1);
    assert(columns[15].name == told[15].0 && row[15] == told[15].1);
}

/// A table can hold a row where its columns have different names, the key comes
/// first, in columns of texts, and what is told stands in the columns behind it.
proof fn lemma_hosts(
    def: TableView,
    key: Seq<Seq<char>>,
    told: Seq<NamedValue>,
    place: spec_fn(Seq<char>) -> int,
)
    requires
        def.columns.len() <= 0x1_0000,
        forall|i: int| 0 <= i < def.columns.len() ==> place((#[trigger] def.columns[i]).name) == i,
        def.key_names().len() == key.len() <= def.columns.len(),
        forall|i: int|
            0 <= i < key.len() ==> (#[trigger] def.columns[i]).name == def.key_names()[i]
                && def.columns[i].is_key() && def.columns[i].col_type is Text,
        forall|i: int|
            key.len() <= i < def.columns.len() ==> !(#[trigger] def.columns[i]).is_key(),
        forall|i: int| 0 <= i < key.len() ==> encode_utf8(#[trigger] key[i]).len() <= u16::MAX,
        told.len() + key.len() <= def.columns.len(),
        forall|j: int|
            0 <= j < told.len() ==> (#[trigger] told[j]).0 == def.columns[key.len() + j].name
                && typed(told[j].1, def.columns[key.len() + j].col_type),
    ensures
        hosts(def, key, told),
{
    reveal(hosts);
    let names = def.key_names();
    assert forall|i: int| 0 <= i < def.columns.len() implies is_column(
        def,
        (#[trigger] def.columns[i]).name,
        i,
    ) by {
        assert forall|j: int| 0 <= j < i implies (#[trigger] def.columns[j]).name
            != def.columns[i].name by {
            assert(place(def.columns[j].name) == j);
            assert(place(def.columns[i].name) == i);
        }
    }
    assert forall|i: int| 0 <= i < def.columns.len() implies def.index_of(
        (#[trigger] def.columns[i]).name,
    ) == Some(i) by {
        assert(is_column(def, def.columns[i].name, i));
        lemma_is_column(def, def.columns[i].name);
    }
    assert forall|i: int| 0 <= i < def.columns.len() && (
    #[trigger] def.columns[i]).is_key() implies names.contains(def.columns[i].name) by {
        assert(i < key.len());
        assert(names[i] == def.columns[i].name);
    }
    assert forall|i: int, j: int| 0 <= i < names.len() && 0 <= j < names.len() && i != j implies
        names[i] != names[j] by {
        assert(place(def.columns[i].name) == i);
        assert(place(def.columns[j].name) == j);
    }
    assert forall|i: int| 0 <= i < key.len() implies exists|c: int|
        is_column(def, #[trigger] names[i], c) && (#[trigger] def.columns[c]).is_key()
            && def.columns[c].col_type is Text by {
        assert(is_column(def, def.columns[i].name, i));
        assert(def.columns[i].is_key());
    }
    assert forall|j: int| 0 <= j < told.len() implies exists|c: int|
        is_column(def, (#[trigger] told[j]).0, c) && !(#[trigger] def.columns[c]).is_key()
            && typed(told[j].1, def.columns[c].col_type) by {
        let c = key.len() + j;
        assert(is_column(def, def.columns[c].name, c));
        assert(!def.columns[c].is_key());
    }
    assert forall|i: int, j: int| 0 <= i < j < told.len() implies (#[trigger] told[i]).0 != (
    #[trigger] told[j]).0 by {
        assert(place(def.columns[key.len() + i].name) == key.len() + i);
        assert(place(def.columns[key.len() + j].name) == key.len() + j);
    }
}

spec fn place_in_keyspaces(name: Seq<char>) -> int {
    if name.len() == 13 {
        0
    } else if name.len() == 14 {
        1
    } else if name.len() == 11 {
        2
    } else {
        -1
    }
}

proof fn lemma_places_in_keyspaces(i: int)
    requires
        0 <= i < 3,
    ensures
        system_schema_keyspaces().columns.len() == 3,
        place_in_keyspaces(system_schema_keyspaces().columns[i].name) == i,
        system_schema_keyspaces().columns[i].is_key() <==> i < 1,
        i < 1 ==> system_schema_keyspaces().columns[i].name
            == system_schema_keyspaces().key_names()[i],
        i < 1 ==> system_schema_keyspaces().columns[i].col_type is Text,
        system_schema_keyspaces().key_names().len() == 1,
        system_schema_keyspaces().name == "keyspaces"@,
{
    reveal(system_schema_keyspaces);
    let t = system_schema_keyspaces();
    reveal_strlit("keyspace_name");
    reveal_strlit("durable_writes");
    reveal_strlit("replication");
    if i == 0 {
        assert(t.columns[0].name == "keyspace_name"@);
    } else if i == 1 {
        assert(t.columns[1].name == "durable_writes"@);
    } else if i == 2 {
        assert(t.columns[2].name == "replication"@);
    }
}

spec fn place_in_tables(name: Seq<char>) -> int {
    if name.len() == 13 {
        0
    } else if name.len() == 10 && name[0] == 't' {
        1
    } else if name.len() == 22 {
        2
    } else if name.len() == 7 && name[0] == 'c' && name[1] == 'a' {
        3
    } else if name.len() == 7 && name[0] == 'c' && name[1] == 'o' {
        4
    } else if name.len() == 10 && name[0] == 'c' {
        5
    } else if name.len() == 11 {
        6
    } else if name.len() == 16 && name[0] == 'c' {
        7
    } else if name.len() == 26 {
        8
    } else if name.len() == 20 {
        9
    } else if name.len() == 10 && name[0] == 'e' {
        10
    } else if name.len() == 5 {
        11
    } else if name.len() == 16 && name[0] == 'g' {
        12
    } else if name.len() == 18 && name[0] == 'm' && name[1] == 'a' {
        13
    } else if name.len() == 27 {
        14
    } else if name.len() == 18 && name[0] == 'm' && name[1] == 'i' {
        15
    } else if name.len() == 18 && name[0] == 'r' {
        16
    } else if name.len() == 17 {
        17
    } else {
        -1
    }
}

proof fn lemma_places_in_tables(i: int)
    requires
        0 <= i < 18,
    ensures
        system_schema_tables().columns.len() == 18,
        place_in_tables(system_schema_tables().columns[i].name) == i,
        system_schema_tables().columns[i].is_key() <==> i < 2,
        i < 2 ==> system_schema_tables().columns[i].name == system_schema_tables().key_names()[i],
        i < 2 ==> system_schema_tables().columns[i].col_type is Text,
        system_schema_tables().key_names().len() == 2,
        system_schema_tables().name == "tables"@,
{
    reveal(system_schema_tables);
    let t = system_schema_tables();
    reveal_strlit("keyspace_name");
    reveal_strlit("table_name");
    reveal_strlit("bloom_filter_fp_chance");
    reveal_strlit("caching");
    reveal_strlit("comment");
    reveal_strlit("compaction");
    reveal_strlit("compression");
    reveal_strlit("crc_check_chance");
    reveal_strlit("dclocal_read_repair_chance");
    reveal_strlit("default_time_to_live");
    reveal_strlit("extensions");
    reveal_strlit("flags");
    reveal_strlit("gc_grace_seconds");
    reveal_strlit("max_index_interval");
    reveal_strlit("memtable_flush_period_in_ms");
    reveal_strlit("min_index_interval");
    reveal_strlit("read_repair_chance");
    reveal_strlit("speculative_retry");
    if i == 0 {
        assert(t.columns[0].name == "keyspace_name"@);
    } else if i == 1 {
        assert(t.columns[1].name == "table_name"@);
    } else if i == 2 {
        assert(t.columns[2].name == "bloom_filter_fp_chance"@);
    } else if i == 3 {
        assert(t.columns[3].name == "caching"@);
    } else if i == 4 {
        assert(t.columns[4].name == "comment"@);
    } else if i == 5 {
        assert(t.columns[5].name == "compaction"@);
    } else if i == 6 {
        assert(t.columns[6].name == "compression"@);
    } else if i == 7 {
        assert(t.columns[7].name == "crc_check_chance"@);
    } else if i == 8 {
        assert(t.columns[8].name == "dclocal_read_repair_chance"@);
    } else if i == 9 {
        assert(t.columns[9].name == "default_time_to_live"@);
    } else if i == 10 {
        assert(t.columns[10].name == "extensions"@);
    } else if i == 11 {
        assert(t.columns[11].name == "flags"@);
    } else if i == 12 {
        assert(t.columns[12].name == "gc_grace_seconds"@);
    } else if i == 13 {
        assert(t.columns[13].name == "max_index_interval"@);
    } else if i == 14 {
        assert(t.columns[14].name == "memtable_flush_period_in_ms"@);
    } else if i == 15 {
        assert(t.columns[15].name == "min_index_interval"@);
    } else if i == 16 {
        assert(t.columns[16].name == "read_repair_chance"@);
    } else if i == 17 {
        assert(t.columns[17].name == "speculative_retry"@);
    }
}

spec fn place_in_columns(name: Seq<char>) -> int {
    if name.len() == 13 {
        0
    } else if name.len() == 10 {
        1
    } else if name.len() == 11 {
        2
    } else if name.len() == 16 {
        3
    } else if name.len() == 17 {
        4
    } else if name.len() == 4 && name[0] == 'k' {
        5
    } else if name.len() == 8 {
        6
    } else if name.len() == 4 && name[0] == 't' {
        7
    } else {
        -1
    }
}

proof fn lemma_places_in_columns(i: int)
    requires
        0 <= i < 8,
    ensures
        system_schema_columns().columns.len() == 8,
        place_in_columns(system_schema_columns().columns[i].name) == i,
        system_schema_columns().columns[i].is_key() <==> i < 3,
        i < 3 ==> system_schema_columns().columns[i].name == system_schema_columns().key_names()[i],
        i < 3 ==> system_schema_columns().columns[i].col_type is Text,
        system_schema_columns().key_names().len() == 3,
        system_schema_columns().name == "columns"@,
{
    reveal(system_schema_columns);
    let t = system_schema_columns();
    reveal_strlit("keyspace_name");
    reveal_strlit("table_name");
    reveal_strlit("column_name");
    reveal_strlit("clustering_order");
    reveal_strlit("column_name_bytes");
    reveal_strlit("kind");
    reveal_strlit("position");
    reveal_strlit("type");
    if i == 0 {
        assert(t.columns[0].name == "keyspace_name"@);
    } else if i == 1 {
        assert(t.columns[1].name == "table_name"@);
    } else if i == 2 {
        assert(t.columns[2].name == "column_name"@);
    } else if i == 3 {
        assert(t.columns[3].name == "clustering_order"@);
    } else if i == 4 {
        assert(t.columns[4].name == "column_name_bytes"@);
    } else if i == 5 {
        assert(t.columns[5].name == "kind"@);
    } else if i == 6 {
        assert(t.columns[6].name == "position"@);
    } else if i == 7 {
        assert(t.columns[7].name == "type"@);
    }
}

/// The tables of `system_schema` that the server makes have columns for all that
/// it lists in them.
pub proof fn law_schema_tables_have_their_columns(
    k: KeyspaceView,
    table: TableView,
    c: ColumnView,
)
    requires
        encode_utf8(k.name).len() <= u16::MAX,
        encode_utf8(table.keyspace).len() <= u16::MAX,
        encode_utf8(table.name).len() <= u16::MAX,
        encode_utf8(c.name).len() <= u16::MAX,
        encode_utf8(type_text(c.col_type)).len() <= i32::MAX,
        typed(
            ValueView::MapOf(replication_map(k.replication)),
            ColumnType::MapOf(Box::new(ColumnType::Text), Box::new(ColumnType::Text)),
        ),
    ensures
        system_schema_keyspaces().name == "keyspaces"@,
        hosts(system_schema_keyspaces(), seq![k.name], keyspace_metadata(k)),
        system_schema_columns().name == "columns"@,
        hosts(
            system_schema_columns(),
            seq![table.keyspace, table.name, c.name],
            column_metadata(table, c),
        ),
        system_schema_tables().name == "tables"@,
        hosts(system_schema_tables(), seq![table.keyspace, table.name], table_metadata()),
{
    lemma_keyspaces_host(k);
    lemma_columns_host(table, c);
    lemma_tables_host(table);
}

proof fn lemma_keyspaces_host(k: KeyspaceView)
    requires
        encode_utf8(k.name).len() <= u16::MAX,
        typed(
            ValueView::MapOf(replication_map(k.replication)),
            ColumnType::MapOf(Box::new(ColumnType::Text), Box::new(ColumnType::Text)),
        ),
    ensures
        system_schema_keyspaces().name == "keyspaces"@,
        hosts(system_schema_keyspaces(), seq![k.name], keyspace_metadata(k)),
{
    let def = system_schema_keyspaces();
    let told = keyspace_metadata(k);
    assert forall|i: int| 0 <= i < 3 implies place_in_keyspaces((#[trigger] def.columns[i]).name)
        == i && (def.columns[i].is_key() <==> i < 1) && (i < 1 ==> def.columns[i].name
        == def.key_names()[i] && def.columns[i].col_type is Text) by {
        lemma_places_in_keyspaces(i);
    }
    lemma_places_in_keyspaces(0);
    reveal(system_schema_keyspaces);
    assert forall|j: int| 0 <= j < told.len() implies (#[trigger] told[j]).0 == def.columns[1
        + j].name && typed(told[j].1, def.columns[1 + j].col_type) by {
        if j == 0 {
            assert(told[0] == ("durable_writes"@, ValueView::Boolean(true)));
        } else {
            assert(told[1].1 == ValueView::MapOf(replication_map(k.replication)));
        }
    }
    lemma_hosts(def, seq![k.name], told, |name: Seq<char>| place_in_keyspaces(name));
}

proof fn lemma_columns_host(table: TableView, c: ColumnView)
    requires
        encode_utf8(table.keyspace).len() <= u16::MAX,
        encode_utf8(table.name).len() <= u16::MAX,
        encode_utf8(c.name).len() <= u16::MAX,
        encode_utf8(type_text(c.col_type)).len() <= i32::MAX,
    ensures
        system_schema_columns().name == "columns"@,
        hosts(
            system_schema_columns(),
            seq![table.keyspace, table.name, c.name],
            column_metadata(table, c),
        ),
{
    let def = system_schema_columns();
    let told = column_metadata(table, c);
    let key = seq![table.keyspace, table.name, c.name];
    assert forall|i: int| 0 <= i < 8 implies place_in_columns((#[trigger] def.columns[i]).name) == i
        && (def.columns[i].is_key() <==> i < 3) && (i < 3 ==> def.columns[i].name
        == def.key_names()[i] && def.columns[i].col_type is Text) by {
        lemma_places_in_columns(i);
    }
    lemma_places_in_columns(0);
    reveal(system_schema_columns);
    reveal_strlit("ASC");
    reveal_strlit("NONE");
    reveal_strlit("partition_key");
    reveal_strlit("clustering");
    reveal_strlit("regular");
    lemma_ascii_text("ASC"@);
    lemma_ascii_text("NONE"@);
    lemma_ascii_text("partition_key"@);
    lemma_ascii_text("clustering"@);
    lemma_ascii_text("regular"@);
    assert forall|j: int| 0 <= j < told.len() implies (#[trigger] told[j]).0 == def.columns[3
        + j].name && typed(told[j].1, def.columns[3 + j].col_type) by {
        if j == 3 {
            if let ValueView::Int(x) = told[3].1 {
                lemma_be_len((x as u32) as nat, 4);
            }
        }
        assert(j == 0 || j == 1 || j == 2 || j == 3 || j == 4);
    }
    lemma_hosts(def, key, told, |name: Seq<char>| place_in_columns(name));
}

proof fn lemma_told_of_tables(j: int)
    requires
        0 <= j < 16,
    ensures
        table_metadata().len() == 16,
        table_metadata()[j].0 == system_schema_tables().columns[2 + j].name,
        typed(table_metadata()[j].1, system_schema_tables().columns[2 + j].col_type),
{
    reveal(system_schema_tables);
    let def = system_schema_tables();
    let told = table_metadata();
    lemma_be_len(0, 4);
    lemma_be_len(0, 8);
    reveal_strlit("");
    reveal_strlit("99PERCENTILE");
    reveal_strlit("compound");
    reveal_strlit("class");
    reveal_strlit("org.apache.cassandra.db.compaction.SizeTieredCompactionStrategy");
    lemma_ascii_text(""@);
    lemma_ascii_text("99PERCENTILE"@);
    lemma_ascii_text("compound"@);
    lemma_ascii_text("class"@);
    lemma_ascii_text("org.apache.cassandra.db.compaction.SizeTieredCompactionStrategy"@);
    if j == 9 {
        let token = ValueView::Text("compound"@);
        let vs = seq![token];
        assert(vs.drop_last() =~= Seq::<ValueView>::empty());
        assert(wire_all(vs) == wire_all(vs.drop_last()) + wire(token));
        assert(wire_all(vs.drop_last()).len() == 0);
        lemma_be_len((1i32 as u32) as nat, 4);
        lemma_be_len((raw(token).len() as i32 as u32) as nat, 4);
        assert(raw(ValueView::SetOf(vs)).len() <= 200);
    } else if j == 3 {
        let a = ValueView::Text("class"@);
        let b = ValueView::Text(
            "org.apache.cassandra.db.compaction.SizeTieredCompactionStrategy"@,
        );
        let es = seq![(a, b)];
        assert(es.drop_last() =~= Seq::<(ValueView, ValueView)>::empty());
        assert(wire_pairs(es) == wire_pairs(es.drop_last()) + (wire(a) + wire(b)));
        assert(wire_pairs(es.drop_last()).len() == 0);
        lemma_be_len((1i32 as u32) as nat, 4);
        lemma_be_len((raw(a).len() as i32 as u32) as nat, 4);
        lemma_be_len((raw(b).len() as i32 as u32) as nat, 4);
        assert(raw(ValueView::MapOf(es)).len() <= 300);
        assert(told[3].1 == ValueView::MapOf(es));
    } else if j == 1 || j == 4 || j == 8 {
        let es = Seq::<(ValueView, ValueView)>::empty();
        lemma_be_len((0i32 as u32) as nat, 4);
        assert(wire_pairs(es).len() == 0);
        assert(raw(ValueView::MapOf(es)).len() == 4);
    } else {
        match told[j].1 {
            ValueView::Int(x) => lemma_be_len((x as u32) as nat, 4),
            ValueView::Double(x) => lemma_be_len(x as nat, 8),
            _ => {},
        }
        assert(j == 0 || j == 2 || j == 5 || j == 6 || j == 7 || j == 10 || j == 11 || j == 12 || j
            == 13 || j == 14 || j == 15);
    }
}

proof fn lemma_tables_host(table: TableView)
    requires
        encode_utf8(table.keyspace).len() <= u16::MAX,
        encode_utf8(table.name).len() <= u16::MAX,
    ensures
        system_schema_tables().name == "tables"@,
        hosts(system_schema_tables(), seq![table.keyspace, table.name], table_metadata()),
{
    let def = system_schema_tables();
    let told = table_metadata();
    assert forall|i: int| 0 <= i < 18 implies place_in_tables((#[trigger] def.columns[i]).name) == i
        && (def.columns[i].is_key() <==> i < 2) && (i < 2 ==> def.columns[i].name
        == def.key_names()[i] && def.columns[i].col_type is Text) by {
        lemma_places_in_tables(i);
    }
    lemma_places_in_tables(0);
    lemma_told_of_tables(0);
    assert forall|j: int| 0 <= j < told.len() implies (#[trigger] told[j]).0 == def.columns[2
        + j].name && typed(told[j].1, def.columns[2 + j].col_type) by {
        lemma_told_of_tables(j);
    }
    lemma_hosts(
        def,
        seq![table.keyspace, table.name],
        told,
        |name: Seq<char>| place_in_tables(name),
    );
}

/// Whether commands define a table of that name.
pub open spec fn defines(cs: Seq<CommandView>, keyspace: Seq<char>, table: Seq<char>) -> bool {
    exists|i: int|
        0 <= i < cs.len() && (#[trigger] cs[i] matches CommandView::PutTable { key, table_def }
            && key == table_key(keyspace, table) && table_def.keyspace == keyspace
            && table_def.name == table && table_def.partition_keys.len() > 0
            && marks_its_key(table_def))
}

/// Whether the columns that are marked for the key of a table are those that the
/// key begins with, in its order.
pub open spec fn marks_its_key(t: TableView) -> bool {
    forall|c: int|
        0 <= c < t.columns.len() && (#[trigger] t.columns[c]).is_key() ==> c
            < t.key_names().len() && t.columns[c].name == t.key_names()[c]
}

/// A new server has the two system keyspaces and their tables, each with a key,
/// and its own row in `system.local`.
pub proof fn law_new_server_has_its_system_tables(
    n: nat,
    host_id: Seq<u8>,
    schema_version: Seq<u8>,
)
    ensures
        ({
            let cs = seed_commands(n, host_id, schema_version);
            &&& defines(cs, "system"@, "local"@)
            &&& defines(cs, "system"@, "peers"@)
            &&& defines(cs, "system_schema"@, "keyspaces"@)
            &&& defines(cs, "system_schema"@, "tables"@)
            &&& defines(cs, "system_schema"@, "columns"@)
            &&& defines(cs, "system_schema"@, "indexes"@)
            &&& defines(cs, "system_schema"@, "triggers"@)
            &&& defines(cs, "system_schema"@, "types"@)
            &&& defines(cs, "system_schema"@, "functions"@)
            &&& defines(cs, "system_schema"@, "aggregates"@)
            &&& defines(cs, "system_schema"@, "views"@)
            &&& keyspace_after_all(None, cs, "system"@) is Some
            &&& keyspace_after_all(None, cs, "system_schema"@) is Some
            &&& cs[2] matches CommandView::WriteNow { engine, op: OpView::Put { key, val } } && (
            engine,
            key,
        ) == row_place(n, "system"@, "local"@, text_parts(seq!["local"@])) && val == row_bytes(
                local_row(host_id, schema_version),
            )
        }),
{
    let cs = seed_commands(n, host_id, schema_version);
    lemma_marks_system_local();
    lemma_marks_system_peers();
    lemma_marks_system_schema_keyspaces();
    lemma_marks_system_schema_tables();
    lemma_marks_system_schema_columns();
    lemma_marks_system_schema_indexes();
    lemma_marks_system_schema_triggers();
    lemma_marks_system_schema_types();
    lemma_marks_system_schema_functions();
    lemma_marks_system_schema_aggregates();
    lemma_marks_system_schema_views();
    assert(cs[1] == (CommandView::PutTable {
        key: table_key("system"@, "local"@),
        table_def: system_local(),
    }));
    assert(cs[3] == (CommandView::PutTable {
        key: table_key("system"@, "peers"@),
        table_def: system_peers(),
    }));
    assert(cs[5] == (CommandView::PutTable {
        key: table_key("system_schema"@, "keyspaces"@),
        table_def: system_schema_keyspaces(),
    }));
    assert(cs[6] == (CommandView::PutTable {
        key: table_key("system_schema"@, "tables"@),
        table_def: system_schema_tables(),
    }));
    assert(cs[7] == (CommandView::PutTable {
        key: table_key("system_schema"@, "columns"@),
        table_def: system_schema_columns(),
    }));
    assert(cs[8] == (CommandView::PutTable {
        key: table_key("system_schema"@, "indexes"@),
        table_def: system_schema_indexes(),
    }));
    assert(cs[9] == (CommandView::PutTable {
        key: table_key("system_schema"@, "triggers"@),
        table_def: system_schema_triggers(),
    }));
    assert(cs[10] == (CommandView::PutTable {
        key: table_key("system_schema"@, "types"@),
        table_def: system_schema_types(),
    }));
    assert(cs[11] == (CommandView::PutTable {
        key: table_key("system_schema"@, "functions"@),
        table_def: system_schema_functions(),
    }));
    assert(cs[12] == (CommandView::PutTable {
        key: table_key("system_schema"@, "aggregates"@),
        table_def: system_schema_aggregates(),
    }));
    assert(cs[13] == (CommandView::PutTable {
        key: table_key("system_schema"@, "views"@),
        table_def: system_schema_views(),
    }));
    assert(text_parts(seq!["local"@]) =~= seq![encode_utf8("local"@)]);
    reveal_strlit("system");
    reveal_strlit("system_schema");
    assert("system"@.len() == 6 && "system_schema"@.len() == 13);
    lemma_keyspace_stays(None, cs, 0, "system"@);
    lemma_keyspace_stays(None, cs, 4, "system_schema"@);
}

/// A keyspace that a command defines is there after all of them if no later one
/// forgets it.
proof fn lemma_keyspace_stays(
    cached: Option<KeyspaceView>,
    cs: Seq<CommandView>,
    i: int,
    name: Seq<char>,
)
    requires
        0 <= i < cs.len(),
        cs[i] matches CommandView::PutKeyspace { keyspace_def, .. } && keyspace_def.name == name,
        forall|j: int| i < j < cs.len() ==> !(#[trigger] cs[j] is ForgetKeyspace),
    ensures
        keyspace_after_all(cached, cs, name) is Some,
    decreases cs.len(),
{
    if i < cs.len() - 1 {
        let front = cs.drop_last();
        assert forall|j: int| i < j < front.len() implies !(#[trigger] front[j]
            is ForgetKeyspace) by {
            assert(front[j] == cs[j]);
        }
        lemma_keyspace_stays(cached, front, i, name);
        assert(!(cs[cs.len() - 1] is ForgetKeyspace));
    }
}

proof fn lemma_marks_system_local()
    ensures
        system_local().keyspace == "system"@,
        system_local().name == "local"@,
        system_local().partition_keys.len() > 0,
        marks_its_key(system_local()),
{
    reveal(system_local);
}

proof fn lemma_marks_system_peers()
    ensures
        system_peers().keyspace == "system"@,
        system_peers().name == "peers"@,
        system_peers().partition_keys.len() > 0,
        marks_its_key(system_peers()),
{
    reveal(system_peers);
}

proof fn lemma_marks_system_schema_keyspaces()
    ensures
        system_schema_keyspaces().keyspace == "system_schema"@,
        system_schema_keyspaces().name == "keyspaces"@,
        system_schema_keyspaces().partition_keys.len() > 0,
        marks_its_key(system_schema_keyspaces()),
{
    reveal(system_schema_keyspaces);
}

proof fn lemma_marks_system_schema_tables()
    ensures
        system_schema_tables().keyspace == "system_schema"@,
        system_schema_tables().name == "tables"@,
        system_schema_tables().partition_keys.len() > 0,
        marks_its_key(system_schema_tables()),
{
    reveal(system_schema_tables);
}

proof fn lemma_marks_system_schema_columns()
    ensures
        system_schema_columns().keyspace == "system_schema"@,
        system_schema_columns().name == "columns"@,
        system_schema_columns().partition_keys.len() > 0,
        marks_its_key(system_schema_columns()),
{
    reveal(system_schema_columns);
}

proof fn lemma_marks_system_schema_indexes()
    ensures
        system_schema_indexes().keyspace == "system_schema"@,
        system_schema_indexes().name == "indexes"@,
        system_schema_indexes().partition_keys.len() > 0,
        marks_its_key(system_schema_indexes()),
{
    reveal(system_schema_indexes);
}

proof fn lemma_marks_system_schema_triggers()
    ensures
        system_schema_triggers().keyspace == "system_schema"@,
        system_schema_triggers().name == "triggers"@,
        system_schema_triggers().partition_keys.len() > 0,
        marks_its_key(system_schema_triggers()),
{
    reveal(system_schema_triggers);
}

proof fn lemma_marks_system_schema_types()
    ensures
        system_schema_types().keyspace == "system_schema"@,
        system_schema_types().name == "types"@,
        system_schema_types().partition_keys.len() > 0,
        marks_its_key(system_schema_types()),
{
    reveal(system_schema_types);
}

proof fn lemma_marks_system_schema_functions()
    ensures
        system_schema_functions().keyspace == "system_schema"@,
        system_schema_functions().name == "functions"@,
        system_schema_functions().partition_keys.len() > 0,
        marks_its_key(system_schema_functions()),
{
    reveal(system_schema_functions);
}

proof fn lemma_marks_system_schema_aggregates()
    ensures
        system_schema_aggregates().keyspace == "system_schema"@,
        system_schema_aggregates().name == "aggregates"@,
        system_schema_aggregates().partition_keys.len() > 0,
        marks_its_key(system_schema_aggregates()),
{
    reveal(system_schema_aggregates);
}

proof fn lemma_marks_system_schema_views()
    ensures
        system_schema_views().keyspace == "system_schema"@,
        system_schema_views().name == "views"@,
        system_schema_views().partition_keys.len() > 0,
        marks_its_key(system_schema_views()),
{
    reveal(system_schema_views);
}

} // verus!
