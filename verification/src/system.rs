//! The `system` and `system_schema` keyspaces, which a new database starts with.

use crate::bytes::copy_bytes;
use crate::cql_value::{lemma_value_views, value_views, Inet, Value, ValueView};
use crate::keys::{cell_views, encode_row_columns, keyspace_key, part_views, row_bytes, table_key};
use crate::schema::{
    column_views, ColumnDef, ColumnType, ColumnView, KeyspaceDef, KeyspaceView, TableDef, TableView,
};
use crate::storage::{command_views, put_row_op, row_engine, Command, CommandView, Storage};
use crate::text::texts;
use vstd::prelude::*;
use vstd::utf8::encode_utf8;

verus! {

/// A column of a system table.
pub open spec fn sys_col(name: Seq<char>, t: ColumnType, is_partition_key: bool) -> ColumnView {
    ColumnView { name, col_type: t, is_partition_key, is_clustering: false }
}

fn col(name: &str, col_type: ColumnType, is_partition_key: bool) -> (c: ColumnDef)
    ensures
        c@ == sys_col(name@, col_type, is_partition_key),
{
    ColumnDef { name: name.to_owned(), col_type, is_partition_key, is_clustering: false }
}

/// A system table.
pub open spec fn sys_table(
    keyspace: Seq<char>,
    name: Seq<char>,
    columns: Seq<ColumnView>,
    partition_keys: Seq<Seq<char>>,
) -> TableView {
    TableView { keyspace, name, columns, partition_keys, clustering_keys: Seq::empty() }
}

fn system_table(
    keyspace: &str,
    name: &str,
    columns: Vec<ColumnDef>,
    partition_keys: Vec<String>,
) -> (t: TableDef)
    ensures
        t@ == sys_table(keyspace@, name@, column_views(columns@), texts(partition_keys@)),
{
    let t: TableDef = TableDef {
        keyspace: keyspace.to_owned(),
        name: name.to_owned(),
        columns,
        partition_keys,
        clustering_keys: Vec::new(),
    };
    assert(t@ =~= sys_table(keyspace@, name@, column_views(columns@), texts(partition_keys@)));
    t
}

/// `system.local`.
#[verifier::opaque]
pub open spec fn system_local() -> TableView {
    sys_table(
        "system"@,
        "local"@,
        seq![
            sys_col("key"@, ColumnType::Text, true),
            sys_col("bootstrapped"@, ColumnType::Text, false),
            sys_col("broadcast_address"@, ColumnType::Inet, false),
            sys_col("cluster_name"@, ColumnType::Text, false),
            sys_col("cql_version"@, ColumnType::Text, false),
            sys_col("data_center"@, ColumnType::Text, false),
            sys_col("gossip_generation"@, ColumnType::Int, false),
            sys_col("host_id"@, ColumnType::Uuid, false),
            sys_col("listen_address"@, ColumnType::Inet, false),
            sys_col("native_protocol_version"@, ColumnType::Text, false),
            sys_col("partitioner"@, ColumnType::Text, false),
            sys_col("rack"@, ColumnType::Text, false),
            sys_col("release_version"@, ColumnType::Text, false),
            sys_col("rpc_address"@, ColumnType::Inet, false),
            sys_col("schema_version"@, ColumnType::Uuid, false),
            sys_col("tokens"@, ColumnType::SetOf(Box::new(ColumnType::Text)), false),
        ],
        seq!["key"@],
    )
}

fn system_local_def() -> (t: TableDef)
    ensures
        t@ == system_local(),
{
    let columns: Vec<ColumnDef> = vec![
        col("key", ColumnType::Text, true),
        col("bootstrapped", ColumnType::Text, false),
        col("broadcast_address", ColumnType::Inet, false),
        col("cluster_name", ColumnType::Text, false),
        col("cql_version", ColumnType::Text, false),
        col("data_center", ColumnType::Text, false),
        col("gossip_generation", ColumnType::Int, false),
        col("host_id", ColumnType::Uuid, false),
        col("listen_address", ColumnType::Inet, false),
        col("native_protocol_version", ColumnType::Text, false),
        col("partitioner", ColumnType::Text, false),
        col("rack", ColumnType::Text, false),
        col("release_version", ColumnType::Text, false),
        col("rpc_address", ColumnType::Inet, false),
        col("schema_version", ColumnType::Uuid, false),
        col("tokens", ColumnType::SetOf(Box::new(ColumnType::Text)), false),
    ];
    let keys: Vec<String> = vec!["key".to_owned()];
    let t: TableDef = system_table("system", "local", columns, keys);
    proof {
        reveal(system_local);
        assert(t@ =~= system_local());
    }
    t
}

/// `system.peers`.
#[verifier::opaque]
pub open spec fn system_peers() -> TableView {
    sys_table(
        "system"@,
        "peers"@,
        seq![
            sys_col("peer"@, ColumnType::Inet, true),
            sys_col("data_center"@, ColumnType::Text, false),
            sys_col("host_id"@, ColumnType::Uuid, false),
            sys_col("preferred_ip"@, ColumnType::Inet, false),
            sys_col("rack"@, ColumnType::Text, false),
            sys_col("release_version"@, ColumnType::Text, false),
            sys_col("rpc_address"@, ColumnType::Inet, false),
            sys_col("schema_version"@, ColumnType::Uuid, false),
            sys_col("tokens"@, ColumnType::SetOf(Box::new(ColumnType::Text)), false),
        ],
        seq!["peer"@],
    )
}

fn system_peers_def() -> (t: TableDef)
    ensures
        t@ == system_peers(),
{
    let columns: Vec<ColumnDef> = vec![
        col("peer", ColumnType::Inet, true),
        col("data_center", ColumnType::Text, false),
        col("host_id", ColumnType::Uuid, false),
        col("preferred_ip", ColumnType::Inet, false),
        col("rack", ColumnType::Text, false),
        col("release_version", ColumnType::Text, false),
        col("rpc_address", ColumnType::Inet, false),
        col("schema_version", ColumnType::Uuid, false),
        col("tokens", ColumnType::SetOf(Box::new(ColumnType::Text)), false),
    ];
    let keys: Vec<String> = vec!["peer".to_owned()];
    let t: TableDef = system_table("system", "peers", columns, keys);
    proof {
        reveal(system_peers);
        assert(t@ =~= system_peers());
    }
    t
}

/// `system_schema.keyspaces`.
#[verifier::opaque]
pub open spec fn system_schema_keyspaces() -> TableView {
    sys_table(
        "system_schema"@,
        "keyspaces"@,
        seq![
            sys_col("keyspace_name"@, ColumnType::Text, true),
            sys_col("durable_writes"@, ColumnType::Boolean, false),
            sys_col("replication"@, ColumnType::MapOf(Box::new(ColumnType::Text), Box::new(ColumnType::Text)), false),
        ],
        seq!["keyspace_name"@],
    )
}

fn system_schema_keyspaces_def() -> (t: TableDef)
    ensures
        t@ == system_schema_keyspaces(),
{
    let columns: Vec<ColumnDef> = vec![
        col("keyspace_name", ColumnType::Text, true),
        col("durable_writes", ColumnType::Boolean, false),
        col("replication", ColumnType::MapOf(Box::new(ColumnType::Text), Box::new(ColumnType::Text)), false),
    ];
    let keys: Vec<String> = vec!["keyspace_name".to_owned()];
    let t: TableDef = system_table("system_schema", "keyspaces", columns, keys);
    proof {
        reveal(system_schema_keyspaces);
        assert(t@ =~= system_schema_keyspaces());
    }
    t
}

/// `system_schema.tables`.
#[verifier::opaque]
pub open spec fn system_schema_tables() -> TableView {
    sys_table(
        "system_schema"@,
        "tables"@,
        seq![
            sys_col("keyspace_name"@, ColumnType::Text, true),
            sys_col("table_name"@, ColumnType::Text, true),
            sys_col("bloom_filter_fp_chance"@, ColumnType::Double, false),
            sys_col("caching"@, ColumnType::MapOf(Box::new(ColumnType::Text), Box::new(ColumnType::Text)), false),
            sys_col("comment"@, ColumnType::Text, false),
            sys_col("compaction"@, ColumnType::MapOf(Box::new(ColumnType::Text), Box::new(ColumnType::Text)), false),
            sys_col("compression"@, ColumnType::MapOf(Box::new(ColumnType::Text), Box::new(ColumnType::Text)), false),
            sys_col("crc_check_chance"@, ColumnType::Double, false),
            sys_col("dclocal_read_repair_chance"@, ColumnType::Double, false),
            sys_col("default_time_to_live"@, ColumnType::Int, false),
            sys_col("extensions"@, ColumnType::MapOf(Box::new(ColumnType::Text), Box::new(ColumnType::Blob)), false),
            sys_col("flags"@, ColumnType::SetOf(Box::new(ColumnType::Text)), false),
            sys_col("gc_grace_seconds"@, ColumnType::Int, false),
            sys_col("max_index_interval"@, ColumnType::Int, false),
            sys_col("memtable_flush_period_in_ms"@, ColumnType::Int, false),
            sys_col("min_index_interval"@, ColumnType::Int, false),
            sys_col("read_repair_chance"@, ColumnType::Double, false),
            sys_col("speculative_retry"@, ColumnType::Text, false),
        ],
        seq!["keyspace_name"@, "table_name"@],
    )
}

fn system_schema_tables_def() -> (t: TableDef)
    ensures
        t@ == system_schema_tables(),
{
    let columns: Vec<ColumnDef> = vec![
        col("keyspace_name", ColumnType::Text, true),
        col("table_name", ColumnType::Text, true),
        col("bloom_filter_fp_chance", ColumnType::Double, false),
        col("caching", ColumnType::MapOf(Box::new(ColumnType::Text), Box::new(ColumnType::Text)), false),
        col("comment", ColumnType::Text, false),
        col("compaction", ColumnType::MapOf(Box::new(ColumnType::Text), Box::new(ColumnType::Text)), false),
        col("compression", ColumnType::MapOf(Box::new(ColumnType::Text), Box::new(ColumnType::Text)), false),
        col("crc_check_chance", ColumnType::Double, false),
        col("dclocal_read_repair_chance", ColumnType::Double, false),
        col("default_time_to_live", ColumnType::Int, false),
        col("extensions", ColumnType::MapOf(Box::new(ColumnType::Text), Box::new(ColumnType::Blob)), false),
        col("flags", ColumnType::SetOf(Box::new(ColumnType::Text)), false),
        col("gc_grace_seconds", ColumnType::Int, false),
        col("max_index_interval", ColumnType::Int, false),
        col("memtable_flush_period_in_ms", ColumnType::Int, false),
        col("min_index_interval", ColumnType::Int, false),
        col("read_repair_chance", ColumnType::Double, false),
        col("speculative_retry", ColumnType::Text, false),
    ];
    let keys: Vec<String> = vec!["keyspace_name".to_owned(), "table_name".to_owned()];
    let t: TableDef = system_table("system_schema", "tables", columns, keys);
    proof {
        reveal(system_schema_tables);
        assert(t@ =~= system_schema_tables());
    }
    t
}

/// `system_schema.columns`.
#[verifier::opaque]
pub open spec fn system_schema_columns() -> TableView {
    sys_table(
        "system_schema"@,
        "columns"@,
        seq![
            sys_col("keyspace_name"@, ColumnType::Text, true),
            sys_col("table_name"@, ColumnType::Text, true),
            sys_col("column_name"@, ColumnType::Text, true),
            sys_col("clustering_order"@, ColumnType::Text, false),
            sys_col("column_name_bytes"@, ColumnType::Blob, false),
            sys_col("kind"@, ColumnType::Text, false),
            sys_col("position"@, ColumnType::Int, false),
            sys_col("type"@, ColumnType::Text, false),
        ],
        seq!["keyspace_name"@, "table_name"@, "column_name"@],
    )
}

fn system_schema_columns_def() -> (t: TableDef)
    ensures
        t@ == system_schema_columns(),
{
    let columns: Vec<ColumnDef> = vec![
        col("keyspace_name", ColumnType::Text, true),
        col("table_name", ColumnType::Text, true),
        col("column_name", ColumnType::Text, true),
        col("clustering_order", ColumnType::Text, false),
        col("column_name_bytes", ColumnType::Blob, false),
        col("kind", ColumnType::Text, false),
        col("position", ColumnType::Int, false),
        col("type", ColumnType::Text, false),
    ];
    let keys: Vec<String> = vec!["keyspace_name".to_owned(), "table_name".to_owned(), "column_name".to_owned()];
    let t: TableDef = system_table("system_schema", "columns", columns, keys);
    proof {
        reveal(system_schema_columns);
        assert(t@ =~= system_schema_columns());
    }
    t
}

/// `system_schema.indexes`.
#[verifier::opaque]
pub open spec fn system_schema_indexes() -> TableView {
    sys_table(
        "system_schema"@,
        "indexes"@,
        seq![
            sys_col("keyspace_name"@, ColumnType::Text, true),
            sys_col("table_name"@, ColumnType::Text, true),
            sys_col("index_name"@, ColumnType::Text, true),
            sys_col("kind"@, ColumnType::Text, false),
            sys_col("options"@, ColumnType::Text, false),
        ],
        seq!["keyspace_name"@, "table_name"@, "index_name"@],
    )
}

fn system_schema_indexes_def() -> (t: TableDef)
    ensures
        t@ == system_schema_indexes(),
{
    let columns: Vec<ColumnDef> = vec![
        col("keyspace_name", ColumnType::Text, true),
        col("table_name", ColumnType::Text, true),
        col("index_name", ColumnType::Text, true),
        col("kind", ColumnType::Text, false),
        col("options", ColumnType::Text, false),
    ];
    let keys: Vec<String> = vec!["keyspace_name".to_owned(), "table_name".to_owned(), "index_name".to_owned()];
    let t: TableDef = system_table("system_schema", "indexes", columns, keys);
    proof {
        reveal(system_schema_indexes);
        assert(t@ =~= system_schema_indexes());
    }
    t
}

/// `system_schema.triggers`.
#[verifier::opaque]
pub open spec fn system_schema_triggers() -> TableView {
    sys_table(
        "system_schema"@,
        "triggers"@,
        seq![
            sys_col("keyspace_name"@, ColumnType::Text, true),
            sys_col("table_name"@, ColumnType::Text, true),
            sys_col("trigger_name"@, ColumnType::Text, true),
            sys_col("options"@, ColumnType::Text, false),
        ],
        seq!["keyspace_name"@, "table_name"@, "trigger_name"@],
    )
}

fn system_schema_triggers_def() -> (t: TableDef)
    ensures
        t@ == system_schema_triggers(),
{
    let columns: Vec<ColumnDef> = vec![
        col("keyspace_name", ColumnType::Text, true),
        col("table_name", ColumnType::Text, true),
        col("trigger_name", ColumnType::Text, true),
        col("options", ColumnType::Text, false),
    ];
    let keys: Vec<String> = vec!["keyspace_name".to_owned(), "table_name".to_owned(), "trigger_name".to_owned()];
    let t: TableDef = system_table("system_schema", "triggers", columns, keys);
    proof {
        reveal(system_schema_triggers);
        assert(t@ =~= system_schema_triggers());
    }
    t
}

/// `system_schema.types`.
#[verifier::opaque]
pub open spec fn system_schema_types() -> TableView {
    sys_table(
        "system_schema"@,
        "types"@,
        seq![
            sys_col("keyspace_name"@, ColumnType::Text, true),
            sys_col("type_name"@, ColumnType::Text, true),
            sys_col("field_names"@, ColumnType::List(Box::new(ColumnType::Text)), false),
            sys_col("field_types"@, ColumnType::List(Box::new(ColumnType::Text)), false),
        ],
        seq!["keyspace_name"@, "type_name"@],
    )
}

fn system_schema_types_def() -> (t: TableDef)
    ensures
        t@ == system_schema_types(),
{
    let columns: Vec<ColumnDef> = vec![
        col("keyspace_name", ColumnType::Text, true),
        col("type_name", ColumnType::Text, true),
        col("field_names", ColumnType::List(Box::new(ColumnType::Text)), false),
        col("field_types", ColumnType::List(Box::new(ColumnType::Text)), false),
    ];
    let keys: Vec<String> = vec!["keyspace_name".to_owned(), "type_name".to_owned()];
    let t: TableDef = system_table("system_schema", "types", columns, keys);
    proof {
        reveal(system_schema_types);
        assert(t@ =~= system_schema_types());
    }
    t
}

/// `system_schema.functions`.
#[verifier::opaque]
pub open spec fn system_schema_functions() -> TableView {
    sys_table(
        "system_schema"@,
        "functions"@,
        seq![
            sys_col("keyspace_name"@, ColumnType::Text, true),
            sys_col("function_name"@, ColumnType::Text, true),
            sys_col("argument_names"@, ColumnType::List(Box::new(ColumnType::Text)), false),
            sys_col("argument_types"@, ColumnType::List(Box::new(ColumnType::Text)), false),
            sys_col("body"@, ColumnType::Text, false),
            sys_col("called_on_null_input"@, ColumnType::Boolean, false),
            sys_col("language"@, ColumnType::Text, false),
            sys_col("return_type"@, ColumnType::Text, false),
            sys_col("deterministic"@, ColumnType::Boolean, false),
            sys_col("monotonic"@, ColumnType::Boolean, false),
            sys_col("monotonic_on"@, ColumnType::SetOf(Box::new(ColumnType::Text)), false),
        ],
        seq!["keyspace_name"@, "function_name"@, "argument_types"@],
    )
}

fn system_schema_functions_def() -> (t: TableDef)
    ensures
        t@ == system_schema_functions(),
{
    let columns: Vec<ColumnDef> = vec![
        col("keyspace_name", ColumnType::Text, true),
        col("function_name", ColumnType::Text, true),
        col("argument_names", ColumnType::List(Box::new(ColumnType::Text)), false),
        col("argument_types", ColumnType::List(Box::new(ColumnType::Text)), false),
        col("body", ColumnType::Text, false),
        col("called_on_null_input", ColumnType::Boolean, false),
        col("language", ColumnType::Text, false),
        col("return_type", ColumnType::Text, false),
        col("deterministic", ColumnType::Boolean, false),
        col("monotonic", ColumnType::Boolean, false),
        col("monotonic_on", ColumnType::SetOf(Box::new(ColumnType::Text)), false),
    ];
    let keys: Vec<String> = vec!["keyspace_name".to_owned(), "function_name".to_owned(), "argument_types".to_owned()];
    let t: TableDef = system_table("system_schema", "functions", columns, keys);
    proof {
        reveal(system_schema_functions);
        assert(t@ =~= system_schema_functions());
    }
    t
}

/// `system_schema.aggregates`.
#[verifier::opaque]
pub open spec fn system_schema_aggregates() -> TableView {
    sys_table(
        "system_schema"@,
        "aggregates"@,
        seq![
            sys_col("keyspace_name"@, ColumnType::Text, true),
            sys_col("aggregate_name"@, ColumnType::Text, true),
            sys_col("argument_types"@, ColumnType::List(Box::new(ColumnType::Text)), true),
            sys_col("deterministic"@, ColumnType::Boolean, false),
            sys_col("final_func"@, ColumnType::Text, false),
            sys_col("initcond"@, ColumnType::Text, false),
            sys_col("return_type"@, ColumnType::Text, false),
            sys_col("state_func"@, ColumnType::Text, false),
            sys_col("state_type"@, ColumnType::Text, false),
        ],
        seq!["keyspace_name"@, "aggregate_name"@, "argument_types"@],
    )
}

fn system_schema_aggregates_def() -> (t: TableDef)
    ensures
        t@ == system_schema_aggregates(),
{
    let columns: Vec<ColumnDef> = vec![
        col("keyspace_name", ColumnType::Text, true),
        col("aggregate_name", ColumnType::Text, true),
        col("argument_types", ColumnType::List(Box::new(ColumnType::Text)), true),
        col("deterministic", ColumnType::Boolean, false),
        col("final_func", ColumnType::Text, false),
        col("initcond", ColumnType::Text, false),
        col("return_type", ColumnType::Text, false),
        col("state_func", ColumnType::Text, false),
        col("state_type", ColumnType::Text, false),
    ];
    let keys: Vec<String> = vec!["keyspace_name".to_owned(), "aggregate_name".to_owned(), "argument_types".to_owned()];
    let t: TableDef = system_table("system_schema", "aggregates", columns, keys);
    proof {
        reveal(system_schema_aggregates);
        assert(t@ =~= system_schema_aggregates());
    }
    t
}

/// `system_schema.views`.
#[verifier::opaque]
pub open spec fn system_schema_views() -> TableView {
    sys_table(
        "system_schema"@,
        "views"@,
        seq![
            sys_col("keyspace_name"@, ColumnType::Text, true),
            sys_col("view_name"@, ColumnType::Text, true),
            sys_col("base_table_name"@, ColumnType::Text, false),
            sys_col("include_all_columns"@, ColumnType::Boolean, false),
            sys_col("where_clause"@, ColumnType::Text, false),
            sys_col("bloom_filter_fp_chance"@, ColumnType::Double, false),
            sys_col("caching"@, ColumnType::MapOf(Box::new(ColumnType::Text), Box::new(ColumnType::Text)), false),
            sys_col("comment"@, ColumnType::Text, false),
            sys_col("compaction"@, ColumnType::MapOf(Box::new(ColumnType::Text), Box::new(ColumnType::Text)), false),
            sys_col("compression"@, ColumnType::MapOf(Box::new(ColumnType::Text), Box::new(ColumnType::Text)), false),
            sys_col("crc_check_chance"@, ColumnType::Double, false),
            sys_col("dclocal_read_repair_chance"@, ColumnType::Double, false),
            sys_col("default_time_to_live"@, ColumnType::Int, false),
            sys_col("extensions"@, ColumnType::MapOf(Box::new(ColumnType::Text), Box::new(ColumnType::Blob)), false),
            sys_col("flags"@, ColumnType::SetOf(Box::new(ColumnType::Text)), false),
            sys_col("gc_grace_seconds"@, ColumnType::Int, false),
            sys_col("max_index_interval"@, ColumnType::Int, false),
            sys_col("memtable_flush_period_in_ms"@, ColumnType::Int, false),
            sys_col("min_index_interval"@, ColumnType::Int, false),
            sys_col("read_repair_chance"@, ColumnType::Double, false),
            sys_col("speculative_retry"@, ColumnType::Text, false),
        ],
        seq!["keyspace_name"@, "view_name"@],
    )
}

fn system_schema_views_def() -> (t: TableDef)
    ensures
        t@ == system_schema_views(),
{
    let columns: Vec<ColumnDef> = vec![
        col("keyspace_name", ColumnType::Text, true),
        col("view_name", ColumnType::Text, true),
        col("base_table_name", ColumnType::Text, false),
        col("include_all_columns", ColumnType::Boolean, false),
        col("where_clause", ColumnType::Text, false),
        col("bloom_filter_fp_chance", ColumnType::Double, false),
        col("caching", ColumnType::MapOf(Box::new(ColumnType::Text), Box::new(ColumnType::Text)), false),
        col("comment", ColumnType::Text, false),
        col("compaction", ColumnType::MapOf(Box::new(ColumnType::Text), Box::new(ColumnType::Text)), false),
        col("compression", ColumnType::MapOf(Box::new(ColumnType::Text), Box::new(ColumnType::Text)), false),
        col("crc_check_chance", ColumnType::Double, false),
        col("dclocal_read_repair_chance", ColumnType::Double, false),
        col("default_time_to_live", ColumnType::Int, false),
        col("extensions", ColumnType::MapOf(Box::new(ColumnType::Text), Box::new(ColumnType::Blob)), false),
        col("flags", ColumnType::SetOf(Box::new(ColumnType::Text)), false),
        col("gc_grace_seconds", ColumnType::Int, false),
        col("max_index_interval", ColumnType::Int, false),
        col("memtable_flush_period_in_ms", ColumnType::Int, false),
        col("min_index_interval", ColumnType::Int, false),
        col("read_repair_chance", ColumnType::Double, false),
        col("speculative_retry", ColumnType::Text, false),
    ];
    let keys: Vec<String> = vec!["keyspace_name".to_owned(), "view_name".to_owned()];
    let t: TableDef = system_table("system_schema", "views", columns, keys);
    proof {
        reveal(system_schema_views);
        assert(t@ =~= system_schema_views());
    }
    t
}

/// 127.0.0.1.
pub open spec fn localhost() -> Seq<u8> {
    seq![127, 0, 0, 1]
}

/// The row of `system.local`.
#[verifier::opaque]
pub open spec fn local_row(host_id: Seq<u8>, schema_version: Seq<u8>) -> Seq<(u16, ValueView)> {
    seq![
        (0, ValueView::Text("local"@)),
        (1, ValueView::Text("COMPLETED"@)),
        (2, ValueView::Inet(localhost())),
        (3, ValueView::Text("RhydaDB Cluster"@)),
        (4, ValueView::Text("3.4.5"@)),
        (5, ValueView::Text("datacenter1"@)),
        (6, ValueView::Int(0)),
        (7, ValueView::Uuid(host_id)),
        (8, ValueView::Inet(localhost())),
        (9, ValueView::Text("4"@)),
        (10, ValueView::Text("org.apache.cassandra.dht.Murmur3Partitioner"@)),
        (11, ValueView::Text("rack1"@)),
        (12, ValueView::Text("4.0.7"@)),
        (13, ValueView::Inet(localhost())),
        (14, ValueView::Uuid(schema_version)),
        (15, ValueView::SetOf(seq![ValueView::Text("-9223372036854775808"@)])),
    ]
}

/// The bytes of the row of `system.local`.
fn local_row_bytes(host_id: &[u8; 16], schema_version: &[u8; 16]) -> (out: Vec<u8>)
    ensures
        out@ == row_bytes(local_row(host_id@, schema_version@)),
{
    let home: Inet = Inet::V4([127, 0, 0, 1]);
    assert(home@ =~= localhost());
    let tokens: Vec<Value> = vec![Value::Text("-9223372036854775808".to_owned())];
    proof {
        lemma_value_views(tokens@);
        assert(value_views(tokens@) =~= seq![ValueView::Text("-9223372036854775808"@)]);
    }
    let cells: Vec<(u16, Value)> = vec![
        (0, Value::Text("local".to_owned())),
        (1, Value::Text("COMPLETED".to_owned())),
        (2, Value::Inet(home)),
        (3, Value::Text("RhydaDB Cluster".to_owned())),
        (4, Value::Text("3.4.5".to_owned())),
        (5, Value::Text("datacenter1".to_owned())),
        (6, Value::Int(0)),
        (7, Value::Uuid(*host_id)),
        (8, Value::Inet(home)),
        (9, Value::Text("4".to_owned())),
        (10, Value::Text("org.apache.cassandra.dht.Murmur3Partitioner".to_owned())),
        (11, Value::Text("rack1".to_owned())),
        (12, Value::Text("4.0.7".to_owned())),
        (13, Value::Inet(home)),
        (14, Value::Uuid(*schema_version)),
        (15, Value::SetOf(tokens)),
    ];
    proof {
        reveal(local_row);
        assert(cell_views(cells@) =~= local_row(host_id@, schema_version@));
    }
    encode_row_columns(&cells)
}

/// A keyspace without replication options.
pub open spec fn sys_keyspace(name: Seq<char>) -> KeyspaceView {
    KeyspaceView { name, replication: Seq::empty() }
}

/// Storing the definition of a system keyspace.
pub open spec fn store_keyspace(name: Seq<char>) -> CommandView {
    CommandView::PutKeyspace { key: keyspace_key(name), keyspace_def: sys_keyspace(name) }
}

/// Storing a table definition.
pub open spec fn store_table(t: TableView) -> CommandView {
    CommandView::PutTable { key: table_key(t.keyspace, t.name), table_def: t }
}

/// What a new database of `n` engines starts with.
pub open spec fn seed_commands(n: nat, host_id: Seq<u8>, schema_version: Seq<u8>) -> Seq<
    CommandView,
> {
    let parts = seq![encode_utf8("local"@)];
    seq![
        store_keyspace("system"@),
        store_table(system_local()),
        CommandView::WriteNow {
            engine: row_engine(n, "system"@, "local"@, parts),
            op: put_row_op(
                "system"@,
                "local"@,
                parts,
                row_bytes(local_row(host_id, schema_version)),
            ),
        },
        store_table(system_peers()),
        store_keyspace("system_schema"@),
        store_table(system_schema_keyspaces()),
        store_table(system_schema_tables()),
        store_table(system_schema_columns()),
        store_table(system_schema_indexes()),
        store_table(system_schema_triggers()),
        store_table(system_schema_types()),
        store_table(system_schema_functions()),
        store_table(system_schema_aggregates()),
        store_table(system_schema_views()),
    ]
}

/// `uuid::Uuid::new_v4`: sixteen random bytes, but for the four bits of the
/// version, which is 4, and the two bits of the variant.
#[verifier::external_body]
fn new_uuid() -> (id: [u8; 16])
    ensures
        is_v4(id@),
{
    *uuid::Uuid::new_v4().as_bytes()
}

/// Whether bytes are a random UUID.
pub open spec fn is_v4(id: Seq<u8>) -> bool {
    &&& id.len() == 16
    &&& 0x40 <= id[6] <= 0x4f
    &&& 0x80 <= id[8] <= 0xbf
}

fn keyspace(name: &str) -> (ks: KeyspaceDef)
    ensures
        ks@ == sys_keyspace(name@),
{
    let ks: KeyspaceDef = KeyspaceDef { name: name.to_owned(), replication: Vec::new() };
    assert(ks@ =~= sys_keyspace(name@));
    ks
}

impl Storage {
    /// What a new database starts with, given the ids of its host and schema.
    pub fn seed_with(&self, host_id: &[u8; 16], schema_version: &[u8; 16]) -> (commands: Vec<
        Command,
    >)
        requires
            self.wf(),
        ensures
            command_views(commands@) == seed_commands(
                self.engine_count(),
                host_id@,
                schema_version@,
            ),
    {
        let parts: Vec<Vec<u8>> = vec![copy_bytes("local".as_bytes())];
        assert(part_views(parts@) =~= seq![encode_utf8("local"@)]);
        let commands: Vec<Command> = vec![
            self.put_keyspace(&keyspace("system")),
            self.put_table(&system_local_def()),
            self.put_row_sync(
                "system",
                "local",
                &parts,
                &local_row_bytes(host_id, schema_version),
            ),
            self.put_table(&system_peers_def()),
            self.put_keyspace(&keyspace("system_schema")),
            self.put_table(&system_schema_keyspaces_def()),
            self.put_table(&system_schema_tables_def()),
            self.put_table(&system_schema_columns_def()),
            self.put_table(&system_schema_indexes_def()),
            self.put_table(&system_schema_triggers_def()),
            self.put_table(&system_schema_types_def()),
            self.put_table(&system_schema_functions_def()),
            self.put_table(&system_schema_aggregates_def()),
            self.put_table(&system_schema_views_def()),
        ];
        assert(command_views(commands@) =~= seed_commands(
            self.engine_count(),
            host_id@,
            schema_version@,
        ));
        commands
    }

    /// What a database starts with: nothing where the `system` keyspace exists,
    /// otherwise the system keyspaces under ids of its own.
    pub fn seed_system(&self, system_exists: bool) -> (commands: Vec<Command>)
        requires
            self.wf(),
        ensures
            system_exists ==> commands@.len() == 0,
            !system_exists ==> exists|host_id: Seq<u8>, schema_version: Seq<u8>|
                is_v4(host_id) && is_v4(schema_version) && command_views(commands@)
                    == #[trigger] seed_commands(self.engine_count(), host_id, schema_version),
    {
        if system_exists {
            return Vec::new();
        }
        let host_id: [u8; 16] = new_uuid();
        let schema_version: [u8; 16] = new_uuid();
        self.seed_with(&host_id, &schema_version)
    }
}

} // verus!
