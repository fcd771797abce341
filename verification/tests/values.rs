use rhydadb::cql_value::{unescape_string, DecodeError, Inet, LiteralReading, Value};
use rhydadb::schema::ColumnType;

fn readings(text: &str) -> Vec<LiteralReading> {
    vec![LiteralReading {
        text: text.to_string(),
        float: text.parse::<f32>().ok().map(|x| x.to_bits()),
        double: text.parse::<f64>().ok().map(|x| x.to_bits()),
        inet: None,
    }]
}

fn literal(text: &str, t: &ColumnType) -> Result<Value, String> {
    Value::parse_literal(text, t, &readings(text))
}

fn value_of(text: &str, t: &ColumnType) -> String {
    format!("{:?}", literal(text, t).unwrap())
}

fn samples() -> Vec<(Value, ColumnType)> {
    let text = || Box::new(ColumnType::Text);
    let int = || Box::new(ColumnType::Int);
    vec![
        (Value::Int(-5), ColumnType::Int),
        (Value::BigInt(i64::MIN), ColumnType::BigInt),
        (Value::SmallInt(300), ColumnType::SmallInt),
        (Value::TinyInt(-1), ColumnType::TinyInt),
        (Value::Float(1.5f32.to_bits()), ColumnType::Float),
        (Value::Double((-0.25f64).to_bits()), ColumnType::Double),
        (Value::Boolean(true), ColumnType::Boolean),
        (Value::Text("h\u{e9}".to_string()), ColumnType::Text),
        (Value::Blob(vec![0, 255]), ColumnType::Blob),
        (Value::Timestamp(1), ColumnType::Timestamp),
        (Value::Uuid([7; 16]), ColumnType::Uuid),
        (Value::Inet(Inet::V4([127, 0, 0, 1])), ColumnType::Inet),
        (Value::Inet(Inet::V6([1; 16])), ColumnType::Inet),
        (
            Value::SetOf(vec![Value::Text("a".to_string()), Value::Text("b".to_string())]),
            ColumnType::SetOf(text()),
        ),
        (Value::List(vec![Value::Int(1), Value::Int(2)]), ColumnType::List(int())),
        (
            Value::MapOf(vec![(Value::Text("k".to_string()), Value::Int(9))]),
            ColumnType::MapOf(text(), int()),
        ),
    ]
}

#[test]
fn unescape_halves_quotes() {
    assert_eq!(unescape_string("'it''s'"), "it's");
    assert_eq!(unescape_string("plain"), "plain");
    assert_eq!(unescape_string("''"), "");
}

#[test]
fn values_come_back_from_the_wire() {
    for (v, t) in samples() {
        let wire = v.to_wire();
        assert_eq!(wire[..4], (v.raw_bytes().len() as i32).to_be_bytes());
        assert_eq!(wire[4..], v.raw_bytes()[..]);
        let back = Value::from_wire(&wire, &t).unwrap();
        assert!(back.same(&v), "{v:?}");
        let back = Value::from_raw_bytes(&v.raw_bytes(), &t).unwrap();
        assert!(back.same(&v), "{v:?}");
    }
    assert_eq!(Value::Null.to_wire(), (-1i32).to_be_bytes());
    assert!(Value::from_wire(&(-1i32).to_be_bytes(), &ColumnType::Int).unwrap().is_null());
}

#[test]
fn wire_bytes_of_numbers() {
    assert_eq!(Value::Int(258).to_wire(), vec![0, 0, 0, 4, 0, 0, 1, 2]);
    assert_eq!(Value::SmallInt(-2).raw_bytes(), vec![0xFF, 0xFE]);
    assert_eq!(Value::Boolean(false).raw_bytes(), vec![0]);
    assert_eq!(Value::Inet(Inet::V4([1, 2, 3, 4])).raw_bytes(), vec![1, 2, 3, 4]);
    assert_eq!(
        Value::List(vec![Value::TinyInt(3)]).raw_bytes(),
        vec![0, 0, 0, 1, 0, 0, 0, 1, 3]
    );
}

#[test]
fn broken_wire_bytes_are_refused() {
    assert!(Value::from_wire(&[0, 0], &ColumnType::Int).is_err());
    assert!(Value::from_wire(&[0, 0, 0, 9, 1], &ColumnType::Int).is_err());
    assert!(Value::from_raw_bytes(&[1, 2, 3], &ColumnType::Int).is_err());
    assert!(Value::from_raw_bytes(&[1, 2, 3], &ColumnType::Inet).is_err());
    assert!(Value::from_raw_bytes(&[0xFF], &ColumnType::Text).is_err());
    assert!(Value::from_raw_bytes(&[0, 0, 0, 2], &ColumnType::List(Box::new(ColumnType::Int)))
        .is_err());
    assert!(matches!(
        Value::try_from_raw_bytes(&[], &ColumnType::TinyInt),
        Err(DecodeError::Empty)
    ));
    assert!(matches!(
        Value::try_from_raw_bytes(&[], &ColumnType::Boolean),
        Err(DecodeError::Empty)
    ));
    let words = Value::from_raw_bytes(&[0xFF, 0xFE], &ColumnType::Text).unwrap_err();
    assert_eq!(words, "invalid utf-8 sequence of 1 bytes from index 0");
}

#[test]
fn literals_are_read() {
    assert_eq!(value_of(" -7 ", &ColumnType::Int), "Int(-7)");
    assert_eq!(value_of("+7", &ColumnType::Int), "Int(7)");
    assert_eq!(value_of("9223372036854775807", &ColumnType::BigInt), "BigInt(9223372036854775807)");
    assert_eq!(value_of("-128", &ColumnType::TinyInt), "TinyInt(-128)");
    assert_eq!(value_of("'x'", &ColumnType::Text), "Text(\"x\")");
    assert_eq!(value_of("True", &ColumnType::Boolean), "Boolean(true)");
    assert_eq!(value_of("FALSE", &ColumnType::Boolean), "Boolean(false)");
    assert_eq!(value_of("0x0aFf", &ColumnType::Blob), "Blob([10, 255])");
    assert_eq!(value_of("12", &ColumnType::Timestamp), "Timestamp(12)");
    assert_eq!(
        value_of("01234567-89AB-cdef-0123-456789abcdef", &ColumnType::Uuid),
        "Uuid([1, 35, 69, 103, 137, 171, 205, 239, 1, 35, 69, 103, 137, 171, 205, 239])"
    );
    assert_eq!(
        value_of("1.5", &ColumnType::Double),
        format!("Double({})", 1.5f64.to_bits())
    );
}

#[test]
fn literals_that_are_none() {
    assert_eq!(literal("2147483648", &ColumnType::Int).unwrap_err(), "cannot parse '2147483648' as int");
    assert_eq!(literal("x", &ColumnType::BigInt).unwrap_err(), "cannot parse 'x' as bigint");
    assert_eq!(literal("128", &ColumnType::TinyInt).unwrap_err(), "cannot parse '128' as tinyint");
    assert_eq!(literal("40000", &ColumnType::SmallInt).unwrap_err(), "cannot parse '40000' as smallint");
    assert_eq!(literal("x", &ColumnType::Float).unwrap_err(), "cannot parse 'x' as float");
    assert_eq!(literal("x", &ColumnType::Double).unwrap_err(), "cannot parse 'x' as double");
    assert_eq!(literal("yes", &ColumnType::Boolean).unwrap_err(), "cannot parse 'yes' as boolean");
    assert_eq!(literal("0x0", &ColumnType::Blob).unwrap_err(), "cannot parse '0x0' as blob");
    assert_eq!(literal("", &ColumnType::Timestamp).unwrap_err(), "cannot parse '' as timestamp");
    assert_eq!(literal("0123", &ColumnType::Uuid).unwrap_err(), "cannot parse '0123' as uuid");
    assert_eq!(literal("1", &ColumnType::Inet).unwrap_err(), "cannot parse '1' as inet");
    assert_eq!(
        literal("{}", &ColumnType::List(Box::new(ColumnType::Int))).unwrap_err(),
        "collection literals are not supported"
    );
}

#[test]
fn equality_of_values() {
    assert!(Value::Int(1).same(&Value::Int(1)));
    assert!(!Value::Int(1).same(&Value::BigInt(1)));
    assert!(!Value::Int(1).same(&Value::Int(2)));
    assert!(Value::Double(0.0f64.to_bits()).same(&Value::Double((-0.0f64).to_bits())));
    assert!(!Value::Float(f32::NAN.to_bits()).same(&Value::Float(f32::NAN.to_bits())));
    assert!(!Value::SetOf(vec![Value::Int(1)]).same(&Value::List(vec![Value::Int(1)])));
    assert!(!Value::List(vec![Value::Int(1)]).same(&Value::List(vec![])));
    for (v, _) in samples() {
        assert!(v.clone().same(&v));
    }
}

#[test]
fn sizes_are_checked_as_arrays_are() {
    let expected = <[u8; 4]>::try_from(&[1u8, 2, 3][..]).unwrap_err().to_string();
    for t in [
        ColumnType::Int,
        ColumnType::BigInt,
        ColumnType::SmallInt,
        ColumnType::Float,
        ColumnType::Double,
        ColumnType::Timestamp,
        ColumnType::Uuid,
    ] {
        match Value::try_from_raw_bytes(&[1, 2, 3], &t) {
            Err(e) => assert_eq!(e.message(), expected),
            Ok(_) => panic!("three bytes are no value of a type of another size"),
        }
    }
}
