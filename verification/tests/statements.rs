use cql3_parser::cassandra_statement::CassandraStatement;
use cql3_parser::common::{DataTypeName, Identifier, Operand};
use rhydadb::error::check_writable;
use rhydadb::literals::literals_in;
use rhydadb::markers::with_stand_ins;
use rhydadb::prepare::{prepare_target, prepared_info};
use rhydadb::protocol::{error, result_prepared, result_rows, result_set_keyspace, supported};
use rhydadb::query::{execute_statement, read_statement, Next};
use rhydadb::schema::{build_table_def, ident_eq, norm_id, ColumnType, TableDef};
use rhydadb::server::{
    decode_compression, hear, is_session_use, is_writable, runs_in_order, Connection, Heard,
    PreparedStmt,
};
use rhydadb::cql_value::Value;
use scylla_cql::frame::types::read_string_multimap;
use scylla_cql::frame::Compression;
use std::sync::Arc;

fn statement(text: &str) -> CassandraStatement {
    read_statement(text).unwrap()
}

fn table(text: &str) -> Option<TableDef> {
    match statement(text) {
        CassandraStatement::CreateTable(c) => build_table_def("ks", "t", &c),
        other => panic!("{other:?}"),
    }
}

#[test]
fn identifiers_are_folded() {
    assert_eq!(norm_id(&Identifier::Unquoted("MyTable".to_string())), "mytable");
    assert_eq!(norm_id(&Identifier::Quoted("MyTable".to_string())), "MyTable");
    assert!(ident_eq(&Identifier::Unquoted("ABC".to_string()), "abc"));
    assert!(!ident_eq(&Identifier::Quoted("ABC".to_string()), "abc"));
    assert_eq!(norm_id(&Identifier::Unquoted("\u{c9}T".to_string())), "\u{e9}t");
}

#[test]
fn tables_are_defined() {
    let t = table(
        "CREATE TABLE t (a int, b text, c map<text, bigint>, PRIMARY KEY ((a), b))",
    )
    .unwrap();
    assert_eq!(t.partition_keys, vec!["a"]);
    assert_eq!(t.clustering_keys, vec!["b"]);
    assert_eq!(t.key_columns(), vec!["a", "b"]);
    assert!(t.is_partition("a"));
    assert!(!t.is_partition("b"));
    assert_eq!(t.column_index("c"), Some(2));
    assert_eq!(t.column_index("d"), None);
    let c = t.column("c").unwrap();
    assert_eq!(c.col_type.cql_string(), "map<text, bigint>");
    assert_eq!(c.col_type.wire_id(), 0x21);
    let mut out = Vec::new();
    c.col_type.write_wire_type(&mut out);
    assert_eq!(out, vec![0, 0x21, 0, 0x0D, 0, 0x02]);
    assert!(table("CREATE TABLE t (a counter PRIMARY KEY)").is_none());
}

#[test]
fn column_types_of_names() {
    let of = |name: &DataTypeName| ColumnType::from_data_type(name, &[]);
    assert_eq!(of(&DataTypeName::Int), Some(ColumnType::Int));
    assert_eq!(of(&DataTypeName::Text), Some(ColumnType::Text));
    assert_eq!(of(&DataTypeName::Counter), None);
    assert_eq!(
        ColumnType::from_data_type(&DataTypeName::Set, &[DataTypeName::Uuid]),
        Some(ColumnType::SetOf(Box::new(ColumnType::Uuid)))
    );
    assert_eq!(ColumnType::from_data_type(&DataTypeName::Set, &[]), None);
}

#[test]
fn markers_among_assignments() {
    assert_eq!(
        with_stand_ins("UPDATE t SET a = ?, b=? WHERE c = ?"),
        "UPDATE t SET a = '\u{1a}', b='\u{1a}' WHERE c = ?"
    );
    assert_eq!(with_stand_ins("UPDATE t SET a = '=?' WHERE c = ?"), "UPDATE t SET a = '=?' WHERE c = ?");
    assert_eq!(with_stand_ins("SET a = ? '\u{1a}'"), "SET a = ? '\u{1a}'");
    assert_eq!(with_stand_ins("SET nowhere = ?"), "SET nowhere = '\u{1a}'");
    assert_eq!(with_stand_ins("no markers"), "no markers");
    match statement("UPDATE t SET a = ?, b = 5 WHERE c = ?") {
        CassandraStatement::Update(u) => {
            assert_eq!(u.assignments.len(), 2);
            assert_eq!(u.assignments[0].value, Operand::Param("?".to_string()));
            assert_eq!(u.assignments[1].value, Operand::Const("5".to_string()));
            assert_eq!(u.where_clause.len(), 1);
            assert_eq!(u.where_clause[0].value, Operand::Param("?".to_string()));
        }
        other => panic!("{other:?}"),
    }
    assert_eq!(read_statement("UPDATE t SET").unwrap_err().code, 0x2000);
    assert_eq!(read_statement("").unwrap_err().code, 0x2000);
}

#[test]
fn literals_of_statements() {
    assert_eq!(
        literals_in(&statement("INSERT INTO t (a, b) VALUES (1.5, 'x')")),
        vec!["1.5", "'x'"]
    );
    assert_eq!(
        literals_in(&statement("SELECT * FROM t WHERE a = 2 AND b IN (3, 4)")),
        vec!["2", "3", "4"]
    );
    assert!(literals_in(&statement("USE ks")).is_empty());
}

#[test]
fn statements_start_with_a_lookup() {
    let session = Some("ks".to_string());
    assert!(matches!(
        execute_statement(&session, &statement("SELECT * FROM T")),
        Next::Table(k, t) if k == "ks" && t == "t"
    ));
    assert!(matches!(
        execute_statement(&None, &statement("SELECT * FROM a.b")),
        Next::Table(k, t) if k == "a" && t == "b"
    ));
    assert!(matches!(
        execute_statement(&None, &statement("USE Ks")),
        Next::Keyspace(k) if k == "ks"
    ));
    assert!(matches!(
        execute_statement(&None, &statement("SELECT * FROM t")),
        Next::Done(Err(e)) if e.code == 0x2200
    ));
}

#[test]
fn prepared_statements_are_described() {
    let t = table("CREATE TABLE t (a int, b text, c bigint, PRIMARY KEY ((a), b))").unwrap();
    let stmt = statement("INSERT INTO t (b, a, c) VALUES (?, ?, ?)");
    let (k, n) = prepare_target(&Some("ks".to_string()), &stmt).unwrap();
    assert_eq!((k.as_str(), n.as_str()), ("ks", "t"));
    let info = prepared_info(&stmt, &k, &n, Ok(Some(t.clone()))).unwrap();
    assert_eq!(info.pk_indexes, vec![1, 0]);
    let names: Vec<&str> = info.bind_specs.iter().map(|(n, _)| n.as_str()).collect();
    assert_eq!(names, vec!["b", "a", "c"]);
    assert!(info.result_cols.is_empty());
    let stmt = statement("SELECT c FROM t WHERE a = ? AND b = ?");
    let info = prepared_info(&stmt, "ks", "t", Ok(Some(t.clone()))).unwrap();
    assert_eq!(info.bind_specs.len(), 2);
    assert_eq!(info.result_cols.len(), 1);
    assert_eq!(info.result_cols[0].1, ColumnType::BigInt);
    let stmt = statement("DELETE FROM t WHERE a = ?");
    assert_eq!(prepared_info(&stmt, "ks", "t", Ok(Some(t))).unwrap().bind_specs.len(), 1);
    let e = prepared_info(&stmt, "ks", "t", Ok(None)).unwrap_err();
    assert_eq!((e.code, e.message.as_str()), (0x2200, "table ks.t does not exist"));
    let e = prepared_info(&stmt, "ks", "t", Err("gone".to_string())).unwrap_err();
    assert_eq!((e.code, e.message.as_str()), (0x0000, "internal error: gone"));
}

#[test]
fn system_keyspaces_are_not_written() {
    assert!(check_writable("ks").is_ok());
    assert!(check_writable("system_auth").is_ok());
    for k in ["system", "system_schema"] {
        let e = check_writable(k).unwrap_err();
        assert_eq!(e.message, format!("Modifications to keyspace '{k}' are not allowed"));
    }
}

#[test]
fn bodies_of_answers() {
    assert_eq!(
        error(0x04, 3, 0x2200, "no", None),
        vec![0x84, 0, 0, 3, 0x00, 0, 0, 0, 8, 0, 0, 0x22, 0, 0, 2, b'n', b'o']
    );
    assert_eq!(
        result_set_keyspace(0x04, 0, "k", None),
        vec![0x84, 0, 0, 0, 0x08, 0, 0, 0, 7, 0, 0, 0, 3, 0, 1, b'k']
    );
    let out = supported(0x04, 0, None);
    let mut body = &out[9..];
    let options = read_string_multimap(&mut body).unwrap();
    assert_eq!(options["CQL_VERSION"], vec!["3.4.5"]);
    assert_eq!(options["COMPRESSION"], vec!["lz4", "snappy"]);
    assert!(body.is_empty());
    let cols = vec![("a".to_string(), ColumnType::Int)];
    let rows = vec![vec![Value::Int(1)], vec![Value::Null]];
    let out = result_rows(0x04, 0, "k", "t", &cols, &rows, true, None);
    assert_eq!(
        out[9..],
        [0, 0, 0, 2, 0, 0, 0, 0, 0xFF, 0xFF, 0xFF, 0xFF, 0, 0, 0, 2, 0, 0, 0, 4, 0, 0, 0, 1, 0xFF, 0xFF, 0xFF, 0xFF]
    );
    let out = result_prepared(0x04, 0, &[0, 1], "k", "t", &cols, &[0], &[], None);
    assert_eq!(
        out[9..],
        [
            0, 0, 0, 4, 0, 2, 0, 1, 0, 0, 0, 1, 0, 0, 0, 1, 0, 0, 0, 1, 0, 0, 0, 1, b'k', 0, 1,
            b't', 0, 1, b'a', 0, 9, 0, 0, 0, 1, 0, 0, 0, 0, 0, 1, b'k', 0, 1, b't'
        ]
    );
}

#[test]
fn use_statements_run_in_order() {
    let body = |text: &str| {
        let mut out = Vec::new();
        rhydadb::client::write_long_string(text, &mut out);
        out
    };
    assert!(is_session_use(&body("use ks")));
    assert!(!is_session_use(&body("  use ks")));
    assert!(is_session_use(&body("USE ks")));
    assert!(!is_session_use(&body("SELECT")));
    assert!(!is_session_use(&[0, 0]));
    assert!(runs_in_order(0x07, &body("USE ks")));
    assert!(!runs_in_order(0x07, &body("SELECT 1")));
}

#[test]
fn prepared_ids_come_round() {
    let mut c = Connection::new();
    let stmt = Arc::new(statement("SELECT * FROM ks.t"));
    let mut seen = Vec::new();
    for _ in 0..3 {
        seen.push(c.add_prepared(PreparedStmt { stmt: stmt.clone(), bind_types: vec![] }));
    }
    assert_eq!(seen[1], seen[0] + 1);
    assert_eq!(seen[2], seen[0] + 2);
    assert_eq!(decode_compression(0), None);
    assert!(matches!(decode_compression(1), Some(Compression::Lz4)));
    assert!(matches!(decode_compression(2), Some(Compression::Snappy)));
    assert!(matches!(hear(&c, &[0x04, 0, 0, 7, 5, 0, 0, 0, 0]), Heard::Awaits(h) if h.stream == 7 && h.opcode == 5));
    assert!(is_writable("short"));
    assert!(!is_writable(&"x".repeat(70000)));
}

#[test]
fn type_texts_are_distinct() {
    let boxed = |t: &ColumnType| Box::new(t.clone());
    let mut types = vec![
        ColumnType::Int,
        ColumnType::BigInt,
        ColumnType::SmallInt,
        ColumnType::TinyInt,
        ColumnType::Float,
        ColumnType::Double,
        ColumnType::Boolean,
        ColumnType::Text,
        ColumnType::Blob,
        ColumnType::Timestamp,
        ColumnType::Uuid,
        ColumnType::Inet,
    ];
    for t in types.clone() {
        types.push(ColumnType::SetOf(boxed(&t)));
        types.push(ColumnType::List(boxed(&t)));
        types.push(ColumnType::MapOf(boxed(&t), boxed(&ColumnType::Text)));
        let inner = ColumnType::SetOf(boxed(&t));
        types.push(ColumnType::MapOf(boxed(&ColumnType::Text), Box::new(inner)));
    }
    let mut names: Vec<String> = types.iter().map(|t| t.cql_string()).collect();
    names.sort();
    let count = names.len();
    names.dedup();
    assert_eq!(names.len(), count);
}
