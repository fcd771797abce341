use rhydadb::cql_value::Value;
use rhydadb::keys::{
    data_prefix_of, decode_key, decode_row_columns, encode_key, encode_row_columns,
    keyspace_key_of, null_row, prefix_upper_bound, row_key_of, table_key_of, tables_prefix_of,
};
use rhydadb::order::{key_before, sort_entries};
use rhydadb::schema::{ColumnDef, ColumnType, TableDef};

fn table() -> TableDef {
    let col = |name: &str, col_type: ColumnType, key: bool| ColumnDef {
        name: name.to_string(),
        col_type,
        is_partition_key: key,
        is_clustering: false,
    };
    TableDef {
        keyspace: "ks".to_string(),
        name: "t".to_string(),
        columns: vec![
            col("id", ColumnType::Int, true),
            col("a", ColumnType::Text, false),
            col("b", ColumnType::BigInt, false),
        ],
        partition_keys: vec!["id".to_string()],
        clustering_keys: vec![],
    }
}

#[test]
fn key_parts_come_back() {
    let parts = vec![vec![1, 2, 3], vec![], vec![0xFF; 300]];
    let key = row_key_of("ks", "t", &parts);
    assert!(key.starts_with(&data_prefix_of("ks", "t")));
    assert_eq!(decode_key("ks", "t", &key).unwrap(), parts);
    assert!(decode_key("other", "t", &key).is_err());
    assert!(decode_key("ks", "t", &key[..key.len() - 1]).is_err());
}

#[test]
fn key_parts_carry_their_lengths() {
    assert_eq!(encode_key(&[vec![7, 8]]), vec![0, 2, 7, 8]);
    assert_eq!(encode_key(&[]), Vec::<u8>::new());
}

#[test]
fn keys_of_definitions() {
    assert_eq!(keyspace_key_of("ks"), b"ks!ks".to_vec());
    assert_eq!(table_key_of("ks", "t"), b"tb!ks!t".to_vec());
    assert_eq!(tables_prefix_of("ks"), b"tb!ks!".to_vec());
    assert_eq!(data_prefix_of("ks", "t"), b"dt!ks!t!".to_vec());
}

#[test]
fn rows_of_a_partition_share_its_prefix() {
    let one = row_key_of("ks", "t", &[vec![1], vec![9]]);
    let partition = row_key_of("ks", "t", &[vec![1]]);
    let other = row_key_of("ks", "t", &[vec![1, 0], vec![9]]);
    assert!(one.starts_with(&partition));
    assert!(!other.starts_with(&partition));
}

#[test]
fn upper_bounds_of_prefixes() {
    assert_eq!(prefix_upper_bound(b"ab"), Some(b"ac".to_vec()));
    assert_eq!(prefix_upper_bound(&[1, 0xFF, 0xFF]), Some(vec![2, 0xFF, 0xFF]));
    assert_eq!(prefix_upper_bound(&[0xFF, 0xFF]), None);
    assert_eq!(prefix_upper_bound(&[]), None);
}

#[test]
fn row_columns_come_back() {
    let row = vec![(1u16, Value::Text("x".to_string())), (2u16, Value::BigInt(5))];
    let data = encode_row_columns(&row);
    let back = decode_row_columns(&data, &table()).unwrap();
    assert!(back[0].is_null());
    assert!(back[1].same(&Value::Text("x".to_string())));
    assert!(back[2].same(&Value::BigInt(5)));
    assert_eq!(null_row(3).len(), 3);
    assert_eq!(decode_row_columns(&[], &table()).unwrap().len(), 3);
    assert!(decode_row_columns(&data[..data.len() - 1], &table()).is_err());
}

#[test]
fn keys_are_ordered_by_their_bytes() {
    let keys: [&[u8]; 6] = [b"", b"a", b"a\x00", b"ab", b"b", b"\xff"];
    for (i, a) in keys.iter().enumerate() {
        for (j, b) in keys.iter().enumerate() {
            assert_eq!(key_before(a, b), i < j);
        }
    }
    let entry = |k: &[u8], v: &[u8]| (k.to_vec(), v.to_vec());
    let mixed = vec![
        entry(b"b", b"2"),
        entry(b"a", b"1"),
        entry(b"\xff", b""),
        entry(b"a", b"0"),
        entry(b"", b"9"),
        entry(b"b", b"2"),
    ];
    let mut expected = mixed.clone();
    expected.sort();
    assert_eq!(sort_entries(mixed), expected);
    assert_eq!(sort_entries(vec![]), vec![]);
}
