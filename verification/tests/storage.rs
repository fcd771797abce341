use rhydadb::schema::{KeyspaceDef, TableDef};
use rhydadb::storage::{
    batch_has_room, env_num, fnv1a, marker_text, plan_open, AST_CACHE_CAPACITY, Command, Lookup,
    MAX_BATCH_OPS, OpenSettings, PrefixDelete, Storage, WriteOp,
};
use rhydadb::query::{parse_cached, read_statement};
use std::sync::Arc;

fn settings() -> OpenSettings<'static> {
    OpenSettings {
        marker: None,
        engine_shards: None,
        cache_mb: None,
        memtable_mb: None,
        sync: false,
        manual_wal: false,
        cpus: 16,
    }
}

fn keyspace(name: &str) -> KeyspaceDef {
    KeyspaceDef { name: name.to_string(), replication: vec![] }
}

fn table(keyspace: &str, name: &str) -> TableDef {
    TableDef {
        keyspace: keyspace.to_string(),
        name: name.to_string(),
        columns: vec![],
        partition_keys: vec![],
        clustering_keys: vec![],
    }
}

#[test]
fn hashes_of_bytes() {
    assert_eq!(fnv1a(b""), 0xcbf29ce484222325);
    assert_eq!(fnv1a(b"a"), 0xaf63dc4c8601ec8c);
    assert_eq!(fnv1a(b"foobar"), 0x85944171f73967e8);
}

#[test]
fn rows_of_a_partition_share_an_engine() {
    let s = Storage::new(8);
    assert_eq!(s.engines(), 8);
    let partition = s.scan_partition("ks", "t", &[vec![1, 2]]);
    let row = s.get_row("ks", "t", &[vec![1, 2]]);
    assert_eq!(partition.engine, row.engine);
    assert_eq!(partition.engine, s.data_engine("ks", "t", &[vec![1, 2]]));
    match s.put_row("ks", "t", &[vec![1, 2], vec![3]], &[7]) {
        Command::Write { engine, op: WriteOp::Put { key, val } } => {
            assert_eq!(engine, partition.engine);
            assert!(key.starts_with(&partition.prefix));
            assert_eq!(val, vec![7]);
        }
        other => panic!("{other:?}"),
    }
    match s.delete_row("ks", "t", &[vec![1, 2], vec![3]]) {
        Command::Write { engine, op: WriteOp::Delete { key } } => {
            assert_eq!(engine, partition.engine);
            assert!(key.starts_with(&partition.prefix));
        }
        other => panic!("{other:?}"),
    }
    let engines: Vec<usize> =
        (0..64u8).map(|i| s.data_engine("ks", "t", &[vec![i]])).collect();
    assert!(engines.iter().any(|e| *e != engines[0]));
    assert!(engines.iter().all(|e| *e < 8));
    assert_eq!(s.scan_rows("ks", "t").len(), 8);
}

#[test]
fn definitions_are_cached_until_forgotten() {
    let mut s = Storage::new(2);
    assert!(matches!(s.get_keyspace("ks"), Lookup::Read(f) if f.engine == 0));
    let c = s.put_keyspace(&keyspace("ks"));
    s.note(&c);
    assert!(matches!(s.get_keyspace("ks"), Lookup::Found(k) if k.name == "ks"));
    let c = s.put_table(&table("ks", "t"));
    s.note(&c);
    assert!(matches!(s.get_table("ks", "t"), Lookup::Found(t) if t.name == "t"));
    assert!(matches!(s.get_table("ks", "u"), Lookup::Read(_)));
    for c in s.delete_table("ks", "t") {
        s.note(&c);
    }
    assert!(matches!(s.get_table("ks", "t"), Lookup::Read(_)));
    s.table_loaded("ks", "t", &table("ks", "t"));
    assert!(matches!(s.get_table("ks", "t"), Lookup::Found(_)));
    for c in s.delete_keyspace("ks") {
        s.note(&c);
    }
    assert!(matches!(s.get_keyspace("ks"), Lookup::Read(_)));
    assert!(matches!(s.get_table("ks", "t"), Lookup::Read(_)));
}

#[test]
fn truncation_is_one_range_on_each_engine() {
    let s = Storage::new(3);
    let commands = s.truncate_table("ks", "t");
    assert_eq!(commands.len(), 3);
    for (i, c) in commands.iter().enumerate() {
        match c {
            Command::Write { engine, op: WriteOp::DeleteRange { start, end } }
            | Command::WriteNow { engine, op: WriteOp::DeleteRange { start, end } } => {
                assert_eq!(*engine, i);
                assert_eq!(start, b"dt!ks!t!");
                assert_eq!(end, b"dt!ks!t\"");
            }
            other => panic!("{other:?}"),
        }
    }
}

#[test]
fn prefixes_without_an_upper_bound_are_swept() {
    let s = Storage::new(2);
    assert!(matches!(s.delete_prefix(&[0xFF]), PrefixDelete::Sweeps(v) if v.len() == 1));
    assert!(matches!(s.delete_data_prefix(&[0xFF]), PrefixDelete::Sweeps(v) if v.len() == 2));
    assert!(matches!(s.delete_prefix(b"a"), PrefixDelete::Ranges(v) if v.len() == 1));
    assert!(matches!(s.delete_data_prefix(b"a"), PrefixDelete::Ranges(v) if v.len() == 2));
}

#[test]
fn a_full_statement_cache_is_emptied() {
    let mut s = Storage::new(1);
    let stmt = parse_cached(&mut s, "SELECT * FROM ks.t").unwrap();
    assert!(Arc::ptr_eq(&stmt, &s.ast_cache_get("SELECT * FROM ks.t").unwrap()));
    for i in 1..AST_CACHE_CAPACITY {
        s.ast_cache_put(&format!("{i}"), stmt.clone());
    }
    assert!(s.ast_cache_get("SELECT * FROM ks.t").is_some());
    s.ast_cache_put("one more", stmt.clone());
    assert!(s.ast_cache_get("SELECT * FROM ks.t").is_none());
    assert!(s.ast_cache_get("one more").is_some());
    assert!(read_statement("SELECT").is_err());
}

#[test]
fn batches_are_bounded() {
    assert_eq!(MAX_BATCH_OPS, 1024);
    assert!(batch_has_room(0));
    assert!(batch_has_room(1023));
    assert!(!batch_has_room(1024));
}

#[test]
fn settings_are_kept_in_range() {
    assert_eq!(env_num(None, 5, 1, 9), 5);
    assert_eq!(env_num(Some("7"), 5, 1, 9), 7);
    assert_eq!(env_num(Some("70"), 5, 1, 9), 9);
    assert_eq!(env_num(Some("0"), 5, 1, 9), 1);
    assert_eq!(env_num(Some("x"), 5, 1, 9), 5);
    assert_eq!(env_num(Some("-3"), 5, 1, 9), 5);
}

#[test]
fn engines_are_planned() {
    let p = plan_open(&settings());
    assert_eq!(p.engines, 8);
    assert!(p.write_marker);
    assert_eq!(p.background_jobs, 2);
    assert_eq!(p.cache_bytes, 1 << 30);
    assert_eq!(p.memtable_bytes, 128 << 20);
    assert!(!p.write_sync);
    assert!(!p.manual_wal);
    let p = plan_open(&OpenSettings { marker: Some(" 3\n"), engine_shards: Some("5"), ..settings() });
    assert_eq!(p.engines, 3);
    assert!(!p.write_marker);
    assert_eq!(p.background_jobs, 5);
    let p = plan_open(&OpenSettings { marker: Some("?"), ..settings() });
    assert_eq!(p.engines, 1);
    assert_eq!(p.background_jobs, 8);
    let p = plan_open(&OpenSettings { engine_shards: Some("100"), manual_wal: true, ..settings() });
    assert_eq!(p.engines, 64);
    assert!(p.manual_wal);
    let p = plan_open(&OpenSettings { sync: true, manual_wal: true, cache_mb: Some("1"), ..settings() });
    assert!(p.write_sync);
    assert!(!p.manual_wal);
    assert_eq!(p.cache_bytes, 8 << 20);
}

#[test]
fn restarts_keep_the_engines() {
    for shards in ["1", "10", "64"] {
        let first = plan_open(&OpenSettings { engine_shards: Some(shards), ..settings() });
        let marker = marker_text(first.engines);
        assert_eq!(marker, shards);
        let later = plan_open(&OpenSettings {
            marker: Some(&marker),
            engine_shards: Some("3"),
            ..settings()
        });
        assert_eq!(later.engines, first.engines);
        assert!(!later.write_marker);
    }
}

#[test]
fn system_tables_are_seeded_once() {
    let s = Storage::new(2);
    assert!(s.seed_system(true).is_empty());
    let commands = s.seed_system(false);
    assert!(commands.iter().any(|c| {
        matches!(c, Command::PutKeyspace { keyspace_def, .. } if keyspace_def.name == "system")
    }));
    assert!(commands.iter().any(|c| {
        matches!(c, Command::PutTable { table_def, .. } if table_def.name == "local")
    }));
    // Two servers have two host ids, of the fourth version.
    let ids: Vec<Vec<u8>> = [s.seed_system(false), s.seed_system(false)]
        .iter()
        .map(|commands| {
            commands
                .iter()
                .filter_map(|c| match c {
                    Command::Write { op: WriteOp::Put { val, .. }, .. }
                    | Command::WriteNow { op: WriteOp::Put { val, .. }, .. } => Some(val.clone()),
                    _ => None,
                })
                .flatten()
                .collect()
        })
        .collect();
    assert_ne!(ids[0], ids[1]);
    let fixed = [s.seed_with(&[1; 16], &[2; 16]), s.seed_with(&[1; 16], &[2; 16])];
    assert_eq!(format!("{:?}", fixed[0]), format!("{:?}", fixed[1]));
    assert!(!format!("{:?}", fixed[0]).is_empty());
}
