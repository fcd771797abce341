//! The rows of `system_schema` that describe keyspaces, tables and columns.

use crate::cql_value::{
    lemma_pair_views, lemma_pair_views_push, lemma_value_views, pair_views, value_views, Value,
    ValueView,
};
use crate::keys::{cell_views, encode_row_columns, part_views, row_bytes};
use crate::schema::{
    text_pairs, type_text, ColumnDef, ColumnView, KeyspaceDef, KeyspaceView, TableDef, TableView,
};
use crate::storage::{command_views, put_row_op, row_engine, Command, CommandView, Storage};
use crate::text::{
    index_in, join3, lemma_index_in, position_of, texts, trim, trimmed, unquote, unquoted,
};
use vstd::prelude::*;
use vstd::utf8::encode_utf8;

verus! {

/// Named values of a row.
pub type NamedValue = (Seq<char>, ValueView);

pub open spec fn named_values(cols: Seq<(&str, Value)>) -> Seq<NamedValue> {
    cols.map_values(|c: (&str, Value)| (c.0@, c.1@))
}

/// Texts as the parts of a key.
pub open spec fn text_parts(names: Seq<Seq<char>>) -> Seq<Seq<u8>> {
    names.map_values(|n: Seq<char>| encode_utf8(n))
}

/// The cells that hold the values from the `i`-th on, or the complaint about
/// the first whose column the table lacks.
pub open spec fn schema_cells(table: TableView, cols: Seq<NamedValue>, i: int) -> Result<
    Seq<(u16, ValueView)>,
    Seq<char>,
>
    decreases cols.len() - i,
{
    if i >= cols.len() {
        Ok(Seq::empty())
    } else {
        match table.index_of(cols[i].0) {
            None => Err("column "@ + cols[i].0 + " missing"@),
            Some(c) => match schema_cells(table, cols, i + 1) {
                Err(e) => Err(e),
                Ok(rest) => Ok(seq![(c as u16, cols[i].1)] + rest),
            },
        }
    }
}

/// Storing a row of a `system_schema` table, given the definition of that
/// table.
pub open spec fn schema_row(
    n: nat,
    table: Seq<char>,
    def: Option<TableView>,
    key: Seq<Seq<char>>,
    cols: Seq<NamedValue>,
) -> Result<CommandView, Seq<char>> {
    match def {
        None => Err("system_schema."@ + table + " missing"@),
        Some(d) => match schema_cells(d, cols, 0) {
            Err(e) => Err(e),
            Ok(cells) => Ok(
                CommandView::WriteNow {
                    engine: row_engine(n, "system_schema"@, table, text_parts(key)),
                    op: put_row_op("system_schema"@, table, text_parts(key), row_bytes(cells)),
                },
            ),
        },
    }
}

pub open spec fn opt_table(def: Option<TableDef>) -> Option<TableView> {
    match def {
        Some(d) => Some(d@),
        None => None,
    }
}

pub open spec fn str_views(names: Seq<&str>) -> Seq<Seq<char>> {
    names.map_values(|n: &str| n@)
}

fn text_parts_of(names: &[&str]) -> (parts: Vec<Vec<u8>>)
    ensures
        part_views(parts@) == text_parts(str_views(names@)),
{
    let ghost all = text_parts(str_views(names@));
    let mut parts: Vec<Vec<u8>> = Vec::new();
    let mut i: usize = 0;
    assert(part_views(parts@) =~= all.take(0));
    while i < names.len()
        invariant
            i <= names@.len(),
            all == text_parts(str_views(names@)),
            part_views(parts@) == all.take(i as int),
        decreases names@.len() - i,
    {
        let ghost before = part_views(parts@);
        parts.push(text_bytes(names[i]));
        assert(part_views(parts@) =~= before.push(all[i as int]));
        i += 1;
        assert(part_views(parts@) =~= all.take(i as int));
    }
    assert(all.take(i as int) =~= all);
    parts
}

/// The bytes of a text.
pub fn text_bytes(s: &str) -> (r: Vec<u8>)
    ensures
        r@ == encode_utf8(s@),
{
    crate::bytes::copy_bytes(s.as_bytes())
}

/// Stores a row of a `system_schema` table, given the definition of that
/// table.
pub fn put_system_schema_row(
    storage: &Storage,
    table: &str,
    def: &Option<TableDef>,
    pk: &[&str],
    cols: &[(&str, Value)],
) -> (r: Result<Command, String>)
    requires
        storage.wf(),
    ensures
        match schema_row(
            storage.engine_count(),
            table@,
            opt_table(*def),
            str_views(pk@),
            named_values(cols@),
        ) {
            Ok(c) => r matches Ok(x) && x@ == c,
            Err(e) => r matches Err(x) && x@ == e,
        },
{
    let schema: &TableDef = match def {
        Some(d) => d,
        None => return Err(join3("system_schema.", table, " missing")),
    };
    let parts: Vec<Vec<u8>> = text_parts_of(pk);
    let ghost views = named_values(cols@);
    let ghost all = schema_cells(schema@, views, 0);
    let mut row: Vec<(u16, Value)> = Vec::new();
    let mut i: usize = 0;
    proof {
        assert(cell_views(row@) =~= Seq::<(u16, ValueView)>::empty());
        if let Ok(rest) = all {
            assert(cell_views(row@) + rest =~= rest);
        }
    }
    while i < cols.len()
        invariant
            i <= cols@.len(),
            views == named_values(cols@),
            opt_table(*def) == Some(schema@),
            all == schema_cells(schema@, views, 0),
            all == (match schema_cells(schema@, views, i as int) {
                Ok(rest) => Ok(cell_views(row@) + rest),
                Err(e) => Err(e),
            }),
        decreases cols@.len() - i,
    {
        assert(views[i as int] == (cols@[i as int].0@, cols@[i as int].1@));
        let idx: usize = match schema.column_index(cols[i].0) {
            Some(idx) => idx,
            None => return Err(join3("column ", cols[i].0, " missing")),
        };
        let v: Value = cols[i].1.clone();
        let ghost before = cell_views(row@);
        let ghost cell = (idx as u16, v@);
        row.push((idx as u16, v));
        proof {
            assert(cell_views(row@) =~= before.push(cell));
            if let Ok(rest) = schema_cells(schema@, views, i + 1) {
                assert(before + (seq![cell] + rest) =~= cell_views(row@) + rest);
            }
        }
        i += 1;
    }
    assert(cell_views(row@) + Seq::<(u16, ValueView)>::empty() =~= cell_views(row@));
    Ok(storage.put_row_sync("system_schema", table, &parts, &encode_row_columns(&row)))
}

/// `s` without the white space around it and then the quotes around it.
pub fn strip_quotes(s: &str) -> (r: String)
    ensures
        r@ == unquoted(trimmed(s@)),
{
    unquote(&trim(s))
}

/// Replication options as a map of texts without quotes.
pub open spec fn replication_map(pairs: Seq<(Seq<char>, Seq<char>)>) -> Seq<(ValueView, ValueView)> {
    pairs.map_values(
        |p: (Seq<char>, Seq<char>)|
            (ValueView::Text(unquoted(trimmed(p.0))), ValueView::Text(unquoted(trimmed(p.1)))),
    )
}

/// What `system_schema.keyspaces` says of a keyspace.
pub open spec fn keyspace_metadata(def: KeyspaceView) -> Seq<NamedValue> {
    seq![
        ("durable_writes"@, ValueView::Boolean(true)),
        ("replication"@, ValueView::MapOf(replication_map(def.replication))),
    ]
}

fn replication_values(pairs: &Vec<(String, String)>) -> (r: Vec<(Value, Value)>)
    ensures
        pair_views(r@) == replication_map(text_pairs(pairs@)),
{
    let ghost all = replication_map(text_pairs(pairs@));
    let mut r: Vec<(Value, Value)> = Vec::new();
    let mut i: usize = 0;
    proof {
        lemma_pair_views(r@);
    }
    assert(pair_views(r@) =~= all.take(0));
    while i < pairs.len()
        invariant
            i <= pairs@.len(),
            all == replication_map(text_pairs(pairs@)),
            pair_views(r@) == all.take(i as int),
        decreases pairs@.len() - i,
    {
        let entry: (Value, Value) = (
            Value::Text(strip_quotes(&pairs[i].0)),
            Value::Text(strip_quotes(&pairs[i].1)),
        );
        let ghost before = r@;
        assert(all[i as int] == (entry.0@, entry.1@));
        r.push(entry);
        proof {
            lemma_pair_views_push(before, entry);
        }
        i += 1;
        assert(pair_views(r@) =~= all.take(i as int));
    }
    assert(all.take(i as int) =~= all);
    r
}

/// Storing what `system_schema.keyspaces` says of a keyspace.
pub fn mirror_keyspace(storage: &Storage, schema: &Option<TableDef>, def: &KeyspaceDef) -> (r:
    Result<Command, String>)
    requires
        storage.wf(),
    ensures
        match schema_row(
            storage.engine_count(),
            "keyspaces"@,
            opt_table(*schema),
            seq![def@.name],
            keyspace_metadata(def@),
        ) {
            Ok(c) => r matches Ok(x) && x@ == c,
            Err(e) => r matches Err(x) && x@ == e,
        },
{
    let cols: Vec<(&str, Value)> = vec![
        ("durable_writes", Value::Boolean(true)),
        ("replication", Value::MapOf(replication_values(&def.replication))),
    ];
    let pk: Vec<&str> = vec![def.name.as_str()];
    assert(named_values(cols@) =~= keyspace_metadata(def@));
    assert(str_views(pk@) =~= seq![def@.name]);
    put_system_schema_row(storage, "keyspaces", schema, &pk, &cols)
}

/// What `system_schema.tables` says of every table.
pub open spec fn table_metadata() -> Seq<NamedValue> {
    seq![
        ("bloom_filter_fp_chance"@, ValueView::Double(0x3F84_7AE1_47AE_147B)),
        ("caching"@, ValueView::MapOf(Seq::empty())),
        ("comment"@, ValueView::Text(""@)),
        (
            "compaction"@,
            ValueView::MapOf(
                seq![
                    (
                        ValueView::Text("class"@),
                        ValueView::Text(
                            "org.apache.cassandra.db.compaction.SizeTieredCompactionStrategy"@,
                        ),
                    ),
                ],
            ),
        ),
        ("compression"@, ValueView::MapOf(Seq::empty())),
        ("crc_check_chance"@, ValueView::Double(0x3FF0_0000_0000_0000)),
        ("dclocal_read_repair_chance"@, ValueView::Double(0x3FB9_9999_9999_999A)),
        ("default_time_to_live"@, ValueView::Int(0)),
        ("extensions"@, ValueView::MapOf(Seq::empty())),
        ("flags"@, ValueView::SetOf(seq![ValueView::Text("compound"@)])),
        ("gc_grace_seconds"@, ValueView::Int(864000)),
        ("max_index_interval"@, ValueView::Int(2048)),
        ("memtable_flush_period_in_ms"@, ValueView::Int(0)),
        ("min_index_interval"@, ValueView::Int(128)),
        ("read_repair_chance"@, ValueView::Double(0)),
        ("speculative_retry"@, ValueView::Text("99PERCENTILE"@)),
    ]
}

fn table_values() -> (cols: Vec<(&'static str, Value)>)
    ensures
        named_values(cols@) == table_metadata(),
{
    let none: Vec<(Value, Value)> = Vec::new();
    let class: Vec<(Value, Value)> = vec![
        (
            Value::Text("class".to_owned()),
            Value::Text(
                "org.apache.cassandra.db.compaction.SizeTieredCompactionStrategy".to_owned(),
            ),
        ),
    ];
    let flags: Vec<Value> = vec![Value::Text("compound".to_owned())];
    proof {
        lemma_pair_views(none@);
        lemma_pair_views(class@);
        lemma_value_views(flags@);
        assert(pair_views(none@) =~= Seq::<(ValueView, ValueView)>::empty());
        assert(pair_views(class@) =~= seq![
            (
                ValueView::Text("class"@),
                ValueView::Text(
                    "org.apache.cassandra.db.compaction.SizeTieredCompactionStrategy"@,
                ),
            ),
        ]);
        assert(value_views(flags@) =~= seq![ValueView::Text("compound"@)]);
    }
    let caching: Value = Value::MapOf(none);
    let compression: Value = caching.clone();
    let extensions: Value = caching.clone();
    let cols: Vec<(&'static str, Value)> = vec![
        ("bloom_filter_fp_chance", Value::Double(0x3F84_7AE1_47AE_147B)),
        ("caching", caching),
        ("comment", Value::Text("".to_owned())),
        ("compaction", Value::MapOf(class)),
        ("compression", compression),
        ("crc_check_chance", Value::Double(0x3FF0_0000_0000_0000)),
        ("dclocal_read_repair_chance", Value::Double(0x3FB9_9999_9999_999A)),
        ("default_time_to_live", Value::Int(0)),
        ("extensions", extensions),
        ("flags", Value::SetOf(flags)),
        ("gc_grace_seconds", Value::Int(864000)),
        ("max_index_interval", Value::Int(2048)),
        ("memtable_flush_period_in_ms", Value::Int(0)),
        ("min_index_interval", Value::Int(128)),
        ("read_repair_chance", Value::Double(0)),
        ("speculative_retry", Value::Text("99PERCENTILE".to_owned())),
    ];
    assert(named_values(cols@) =~= table_metadata());
    cols
}

/// Storing what `system_schema.tables` says of a table.
pub fn mirror_table(storage: &Storage, schema: &Option<TableDef>, def: &TableDef) -> (r: Result<
    Command,
    String,
>)
    requires
        storage.wf(),
    ensures
        match schema_row(
            storage.engine_count(),
            "tables"@,
            opt_table(*schema),
            seq![def@.keyspace, def@.name],
            table_metadata(),
        ) {
            Ok(c) => r matches Ok(x) && x@ == c,
            Err(e) => r matches Err(x) && x@ == e,
        },
{
    let pk: Vec<&str> = vec![def.keyspace.as_str(), def.name.as_str()];
    assert(str_views(pk@) =~= seq![def@.keyspace, def@.name]);
    put_system_schema_row(storage, "tables", schema, &pk, &table_values())
}

/// Whether a column of the key is in the list of its kind of keys.
pub open spec fn key_listed(table: TableView, c: ColumnView) -> bool {
    if c.is_partition_key {
        index_in(table.partition_keys, c.name) is Some
    } else if c.is_clustering {
        index_in(table.clustering_keys, c.name) is Some
    } else {
        true
    }
}

/// What `system_schema.columns` says of a column.
pub open spec fn column_metadata(table: TableView, c: ColumnView) -> Seq<NamedValue> {
    let kind = if c.is_partition_key {
        "partition_key"@
    } else if c.is_clustering {
        "clustering"@
    } else {
        "regular"@
    };
    let position = if c.is_partition_key {
        index_in(table.partition_keys, c.name).unwrap() as i32
    } else if c.is_clustering {
        index_in(table.clustering_keys, c.name).unwrap() as i32
    } else {
        -1i32
    };
    let order = if !c.is_partition_key && c.is_clustering {
        "ASC"@
    } else {
        "NONE"@
    };
    seq![
        ("clustering_order"@, ValueView::Text(order)),
        ("column_name_bytes"@, ValueView::Blob(encode_utf8(c.name))),
        ("kind"@, ValueView::Text(kind)),
        ("position"@, ValueView::Int(position)),
        ("type"@, ValueView::Text(type_text(c.col_type))),
    ]
}

/// The complaint about a column of the key that is in no list of keys.
pub open spec fn unlisted_key(name: Seq<char>) -> Seq<char> {
    "key column "@ + name + " missing"@
}

/// Storing what `system_schema.columns` says of the columns from the `i`-th
/// on: the commands up to the first complaint, and that complaint.
pub open spec fn column_rows(n: nat, schema: Option<TableView>, table: TableView, i: int) -> (
    Seq<CommandView>,
    Option<Seq<char>>,
)
    decreases table.columns.len() - i,
{
    if i >= table.columns.len() {
        (Seq::empty(), None)
    } else if !key_listed(table, table.columns[i]) {
        (Seq::empty(), Some(unlisted_key(table.columns[i].name)))
    } else {
        match schema_row(
            n,
            "columns"@,
            schema,
            seq![table.keyspace, table.name, table.columns[i].name],
            column_metadata(table, table.columns[i]),
        ) {
            Err(e) => (Seq::empty(), Some(e)),
            Ok(c) => {
                let rest = column_rows(n, schema, table, i + 1);
                (seq![c] + rest.0, rest.1)
            },
        }
    }
}

fn column_position(keys: &Vec<String>, name: &str) -> (r: i32)
    requires
        index_in(texts(keys@), name@) is Some,
    ensures
        r == index_in(texts(keys@), name@).unwrap() as i32,
{
    proof {
        lemma_index_in(texts(keys@), name@);
    }
    let n: usize = keys.len();
    let pos: Option<usize> = position_of(keys, name);
    assert(index_in(texts(keys@), name@).unwrap() < n);
    match pos {
        Some(p) => p as i32,
        None => 0,
    }
}

fn is_key_listed(def: &TableDef, c: &ColumnDef) -> (r: bool)
    ensures
        r == key_listed(def@, c@),
{
    if c.is_partition_key {
        position_of(&def.partition_keys, &c.name).is_some()
    } else if c.is_clustering {
        position_of(&def.clustering_keys, &c.name).is_some()
    } else {
        true
    }
}

fn column_values(def: &TableDef, c: &ColumnDef) -> (cols: Vec<(&'static str, Value)>)
    requires
        key_listed(def@, c@),
    ensures
        named_values(cols@) == column_metadata(def@, c@),
{
    let kind: &str;
    let position: i32;
    let order: &str;
    if c.is_partition_key {
        kind = "partition_key";
        position = column_position(&def.partition_keys, &c.name);
        order = "NONE";
    } else if c.is_clustering {
        kind = "clustering";
        position = column_position(&def.clustering_keys, &c.name);
        order = "ASC";
    } else {
        kind = "regular";
        position = -1;
        order = "NONE";
    }
    let cols: Vec<(&'static str, Value)> = vec![
        ("clustering_order", Value::Text(order.to_owned())),
        ("column_name_bytes", Value::Blob(text_bytes(&c.name))),
        ("kind", Value::Text(kind.to_owned())),
        ("position", Value::Int(position)),
        ("type", Value::Text(c.col_type.cql_string())),
    ];
    assert(named_values(cols@) =~= column_metadata(def@, c@));
    cols
}

/// Stores what `system_schema.columns` says of the columns of a table. With a
/// complaint come the commands before it.
pub fn mirror_columns(storage: &Storage, schema: &Option<TableDef>, def: &TableDef) -> (r: (
    Vec<Command>,
    Option<String>,
))
    requires
        storage.wf(),
    ensures
        command_views(r.0@) == column_rows(
            storage.engine_count(),
            opt_table(*schema),
            def@,
            0,
        ).0,
        match column_rows(storage.engine_count(), opt_table(*schema), def@, 0).1 {
            Some(e) => r.1 matches Some(x) && x@ == e,
            None => r.1 is None,
        },
{
    let ghost n = storage.engine_count();
    let ghost all = column_rows(n, opt_table(*schema), def@, 0);
    let mut commands: Vec<Command> = Vec::new();
    let mut i: usize = 0;
    assert(command_views(commands@) + all.0 =~= all.0);
    while i < def.columns.len()
        invariant
            i <= def.columns@.len(),
            storage.wf(),
            n == storage.engine_count(),
            all == column_rows(n, opt_table(*schema), def@, 0),
            all.0 == command_views(commands@) + column_rows(
                n,
                opt_table(*schema),
                def@,
                i as int,
            ).0,
            all.1 == column_rows(n, opt_table(*schema), def@, i as int).1,
        decreases def.columns@.len() - i,
    {
        let c: &ColumnDef = &def.columns[i];
        assert(def@.columns[i as int] == c@);
        if !is_key_listed(def, c) {
            assert(command_views(commands@) + Seq::<CommandView>::empty() =~= command_views(
                commands@,
            ));
            return (commands, Some(join3("key column ", &c.name, " missing")));
        }
        let pk: Vec<&str> = vec![def.keyspace.as_str(), def.name.as_str(), c.name.as_str()];
        assert(str_views(pk@) =~= seq![def@.keyspace, def@.name, c@.name]);
        match put_system_schema_row(storage, "columns", schema, &pk, &column_values(def, c)) {
            Ok(command) => {
                let ghost before = command_views(commands@);
                let ghost rest = column_rows(n, opt_table(*schema), def@, i + 1);
                commands.push(command);
                assert(command_views(commands@) =~= before.push(command@));
                assert(before + (seq![command@] + rest.0) =~= command_views(commands@) + rest.0);
            },
            Err(e) => {
                assert(command_views(commands@) + Seq::<CommandView>::empty() =~= command_views(
                    commands@,
                ));
                return (commands, Some(e));
            },
        }
        i += 1;
    }
    assert(command_views(commands@) + Seq::<CommandView>::empty() =~= command_views(commands@));
    (commands, None)
}

} // verus!
