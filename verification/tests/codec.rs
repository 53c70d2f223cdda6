use gsql::codec::{decode_row, encode_row};
use gsql::parser::{ColumnDef, DataType};
use gsql::value::Value;

fn schema() -> Vec<ColumnDef> {
    vec![
        ColumnDef { name: "a".to_owned(), data_type: DataType::Int, constraints: vec![] },
        ColumnDef { name: "b".to_owned(), data_type: DataType::Text, constraints: vec![] },
        ColumnDef { name: "c".to_owned(), data_type: DataType::Boolean, constraints: vec![] },
        ColumnDef { name: "d".to_owned(), data_type: DataType::Double, constraints: vec![] },
    ]
}

#[test]
fn codec_round_trip_all_types() {
    let cols = schema();
    let vals = vec![
        Value::Int(-42),
        Value::Text("héllo wörld".to_owned()),
        Value::Bool(false),
        Value::Float((3.25f64).to_bits()),
    ];
    let bytes = encode_row(&cols, &vals).unwrap();
    let (decoded, end) = decode_row(&cols, &bytes, 0).unwrap();
    assert_eq!(end, bytes.len());
    assert_eq!(decoded.len(), 4);
    assert!(matches!(decoded[0], Value::Int(-42)));
    match &decoded[1] {
        Value::Text(s) => assert_eq!(s, "héllo wörld"),
        _ => panic!("wrong text"),
    }
    assert!(matches!(decoded[2], Value::Bool(false)));
    match decoded[3] {
        Value::Float(b) => assert_eq!(f64::from_bits(b), 3.25),
        _ => panic!("wrong float"),
    }
}

#[test]
fn codec_round_trip_nulls() {
    let cols = schema();
    let vals = vec![Value::Null, Value::Null, Value::Null, Value::Null];
    let bytes = encode_row(&cols, &vals).unwrap();
    let (decoded, _) = decode_row(&cols, &bytes, 0).unwrap();
    assert!(decoded.iter().all(|v| matches!(v, Value::Null)));
}

#[test]
fn codec_rejects_wrong_arity() {
    let cols = schema();
    let r = encode_row(&cols, &vec![Value::Int(1)]);
    assert!(r.is_err());
}

#[test]
fn codec_rejects_garbage() {
    let cols = schema();
    let r = decode_row(&cols, &vec![0u8; 2], 0);
    assert!(r.is_err());
}
