use gsql::error::GSQLError;
use gsql::parser::{
    ColumnDef, Constraint, CreateTableStmt, DataType, Expression, InsertStmt, SelectItem,
    SelectStmt, TableRef,
};
use gsql::storage::StorageEngine;
use gsql::value::Value;

fn col(name: &str, dt: DataType, cons: Vec<Constraint>) -> ColumnDef {
    ColumnDef { name: name.to_owned(), data_type: dt, constraints: cons }
}

fn users_schema() -> Vec<ColumnDef> {
    vec![
        col("id", DataType::Int, vec![Constraint::PrimaryKey]),
        col("name", DataType::Text, vec![]),
    ]
}

fn create_users(engine: &mut StorageEngine) {
    let stmt = CreateTableStmt { table_name: "users".to_owned(), columns: users_schema() };
    engine.create_table(&stmt).unwrap();
}

fn insert_row(engine: &mut StorageEngine, table: &str, vals: Vec<Value>) -> Result<u64, GSQLError> {
    let stmt = InsertStmt {
        table_name: table.to_owned(),
        columns: vec![],
        values: vec![vals.into_iter().map(Expression::Literal).collect()],
    };
    engine.insert(&stmt)
}

fn select_all(engine: &mut StorageEngine, table: &str) -> Result<Vec<Vec<Value>>, GSQLError> {
    let stmt = SelectStmt {
        columns: vec![SelectItem::All],
        from: TableRef::Table(table.to_owned()),
        where_clause: None,
    };
    engine.select(&stmt)
}

fn select_where_id(
    engine: &mut StorageEngine,
    table: &str,
    id: i64,
) -> Result<Vec<Vec<Value>>, GSQLError> {
    let stmt = SelectStmt {
        columns: vec![SelectItem::All],
        from: TableRef::Table(table.to_owned()),
        where_clause: Some(Expression::Eq(
            Box::new(Expression::Column("id".to_owned())),
            Box::new(Expression::Literal(Value::Int(id))),
        )),
    };
    engine.select(&stmt)
}

#[test]
fn insert_then_point_select() {
    let mut engine = StorageEngine::new(None).unwrap();
    create_users(&mut engine);
    let n = insert_row(&mut engine, "users", vec![Value::Int(1), Value::Text("alice".to_owned())])
        .unwrap();
    assert_eq!(n, 1);
    let rows = select_where_id(&mut engine, "users", 1).unwrap();
    assert_eq!(rows.len(), 1);
    match (&rows[0][0], &rows[0][1]) {
        (Value::Int(1), Value::Text(s)) => assert_eq!(s, "alice"),
        _ => panic!("wrong row: {:?}", rows),
    }
}

#[test]
fn duplicate_primary_key_rejected() {
    let mut engine = StorageEngine::new(None).unwrap();
    create_users(&mut engine);
    insert_row(&mut engine, "users", vec![Value::Int(1), Value::Text("a".to_owned())]).unwrap();
    let r = insert_row(&mut engine, "users", vec![Value::Int(1), Value::Text("b".to_owned())]);
    assert!(matches!(r, Err(GSQLError::DuplicateKey(_))));
    let rows = select_all(&mut engine, "users").unwrap();
    assert_eq!(rows.len(), 1);
}

#[test]
fn create_table_twice_fails() {
    let mut engine = StorageEngine::new(None).unwrap();
    create_users(&mut engine);
    insert_row(&mut engine, "users", vec![Value::Int(7), Value::Text("x".to_owned())]).unwrap();
    let stmt = CreateTableStmt { table_name: "users".to_owned(), columns: users_schema() };
    assert!(matches!(engine.create_table(&stmt), Err(GSQLError::TableExists(_))));
    let rows = select_all(&mut engine, "users").unwrap();
    assert_eq!(rows.len(), 1);
    assert!(matches!(rows[0][0], Value::Int(7)));
}

#[test]
fn wide_text_allocates_new_page() {
    let mut engine = StorageEngine::new(None).unwrap();
    create_users(&mut engine);
    // each row takes over half a page, so every row needs its own page
    let big = "x".repeat(5000);
    insert_row(&mut engine, "users", vec![Value::Int(1), Value::Text(big.clone())]).unwrap();
    insert_row(&mut engine, "users", vec![Value::Int(2), Value::Text(big.clone())]).unwrap();
    let rows = select_all(&mut engine, "users").unwrap();
    assert_eq!(rows.len(), 2);
    match &rows[1][1] {
        Value::Text(s) => assert_eq!(s.len(), 5000),
        _ => panic!("wrong value"),
    }
    // two pages were allocated for the two rows
    let rows2 = select_where_id(&mut engine, "users", 2).unwrap();
    assert_eq!(rows2.len(), 1);
}

#[test]
fn select_missing_table_fails() {
    let mut engine = StorageEngine::new(None).unwrap();
    let r = select_all(&mut engine, "absent");
    assert!(matches!(r, Err(GSQLError::TableNotFound(_))));
}

#[test]
fn delete_not_implemented() {
    let mut engine = StorageEngine::new(None).unwrap();
    create_users(&mut engine);
    let stmt = gsql::parser::DeleteStmt { table_name: "users".to_owned(), where_clause: None };
    assert!(matches!(engine.delete(&stmt), Err(GSQLError::NotImplemented(_))));
}

#[test]
fn insert_type_mismatch() {
    let mut engine = StorageEngine::new(None).unwrap();
    create_users(&mut engine);
    let r = insert_row(&mut engine, "users", vec![Value::Text("nope".to_owned()), Value::Null]);
    assert!(matches!(r, Err(GSQLError::TypeMismatch(_))));
    assert_eq!(select_all(&mut engine, "users").unwrap().len(), 0);
}

#[test]
fn null_and_bool_and_float_round_trip_through_engine() {
    let mut engine = StorageEngine::new(None).unwrap();
    let stmt = CreateTableStmt {
        table_name: "t".to_owned(),
        columns: vec![
            col("k", DataType::BigInt, vec![Constraint::PrimaryKey]),
            col("flag", DataType::Boolean, vec![]),
            col("ratio", DataType::Double, vec![]),
            col("note", DataType::Varchar(16), vec![]),
        ],
    };
    engine.create_table(&stmt).unwrap();
    let bits = (0.5f64).to_bits();
    insert_row(
        &mut engine,
        "t",
        vec![Value::Int(-3), Value::Bool(true), Value::Float(bits), Value::Null],
    )
    .unwrap();
    let rows = select_all(&mut engine, "t").unwrap();
    assert_eq!(rows.len(), 1);
    assert!(matches!(rows[0][0], Value::Int(-3)));
    assert!(matches!(rows[0][1], Value::Bool(true)));
    match rows[0][2] {
        Value::Float(b) => assert_eq!(f64::from_bits(b), 0.5),
        _ => panic!("wrong float"),
    }
    assert!(matches!(rows[0][3], Value::Null));
}

#[test]
fn varchar_too_long_is_type_mismatch() {
    let mut engine = StorageEngine::new(None).unwrap();
    let stmt = CreateTableStmt {
        table_name: "v".to_owned(),
        columns: vec![col("s", DataType::Varchar(4), vec![])],
    };
    engine.create_table(&stmt).unwrap();
    let r = insert_row(&mut engine, "v", vec![Value::Text("12345".to_owned())]);
    assert!(matches!(r, Err(GSQLError::TypeMismatch(_))));
}

#[test]
fn text_primary_key_supported() {
    let mut engine = StorageEngine::new(None).unwrap();
    let stmt = CreateTableStmt {
        table_name: "tags".to_owned(),
        columns: vec![
            col("tag", DataType::Text, vec![Constraint::PrimaryKey]),
            col("hits", DataType::Int, vec![]),
        ],
    };
    engine.create_table(&stmt).unwrap();
    insert_row(&mut engine, "tags", vec![Value::Text("red".to_owned()), Value::Int(1)]).unwrap();
    let r = insert_row(&mut engine, "tags", vec![Value::Text("red".to_owned()), Value::Int(2)]);
    assert!(matches!(r, Err(GSQLError::DuplicateKey(_))));
    insert_row(&mut engine, "tags", vec![Value::Text("blue".to_owned()), Value::Int(2)]).unwrap();
    assert_eq!(select_all(&mut engine, "tags").unwrap().len(), 2);
}

#[test]
fn null_primary_key_rejected() {
    let mut engine = StorageEngine::new(None).unwrap();
    create_users(&mut engine);
    let r = insert_row(&mut engine, "users", vec![Value::Null, Value::Text("x".to_owned())]);
    assert!(matches!(r, Err(GSQLError::TypeMismatch(_))));
    assert_eq!(select_all(&mut engine, "users").unwrap().len(), 0);
}

#[test]
fn not_null_column_rejects_null() {
    let mut engine = StorageEngine::new(None).unwrap();
    let stmt = CreateTableStmt {
        table_name: "n".to_owned(),
        columns: vec![
            col("id", DataType::Int, vec![Constraint::PrimaryKey]),
            col("name", DataType::Text, vec![Constraint::NotNull]),
        ],
    };
    engine.create_table(&stmt).unwrap();
    let r = insert_row(&mut engine, "n", vec![Value::Int(1), Value::Null]);
    assert!(matches!(r, Err(GSQLError::TypeMismatch(_))));
    insert_row(&mut engine, "n", vec![Value::Int(1), Value::Text("ok".to_owned())]).unwrap();
}

#[test]
fn unique_column_rejects_duplicates() {
    let mut engine = StorageEngine::new(None).unwrap();
    let stmt = CreateTableStmt {
        table_name: "u".to_owned(),
        columns: vec![
            col("id", DataType::Int, vec![Constraint::PrimaryKey]),
            col("mail", DataType::Text, vec![Constraint::Unique]),
        ],
    };
    engine.create_table(&stmt).unwrap();
    insert_row(&mut engine, "u", vec![Value::Int(1), Value::Text("a@b".to_owned())]).unwrap();
    let r = insert_row(&mut engine, "u", vec![Value::Int(2), Value::Text("a@b".to_owned())]);
    assert!(matches!(r, Err(GSQLError::DuplicateKey(_))));
    // Null is exempt from uniqueness: it compares equal to nothing
    insert_row(&mut engine, "u", vec![Value::Int(2), Value::Null]).unwrap();
    insert_row(&mut engine, "u", vec![Value::Int(3), Value::Null]).unwrap();
    assert_eq!(select_all(&mut engine, "u").unwrap().len(), 3);
}

#[test]
fn page_count_grows_with_wide_rows() {
    let mut engine = StorageEngine::new(None).unwrap();
    create_users(&mut engine);
    let big = "y".repeat(5000);
    insert_row(&mut engine, "users", vec![Value::Int(1), Value::Text(big.clone())]).unwrap();
    let pc1 = engine.tables[0].meta.page_count;
    insert_row(&mut engine, "users", vec![Value::Int(2), Value::Text(big)]).unwrap();
    let pc2 = engine.tables[0].meta.page_count;
    assert_eq!(pc1, 1);
    assert_eq!(pc2, 2);
}

#[test]
fn crash_and_recover_keeps_all_rows() {
    let mut engine = StorageEngine::new(None).unwrap();
    create_users(&mut engine);
    for k in 0..20i64 {
        insert_row(&mut engine, "users", vec![Value::Int(k), Value::Text(format!("u{}", k))])
            .unwrap();
    }
    let before = format!("{:?}", select_all(&mut engine, "users").unwrap());
    // the WAL is flushed per statement; cached data pages are lost here
    let mut recovered = engine.simulate_crash();
    recovered.recover();
    let after = format!("{:?}", select_all(&mut recovered, "users").unwrap());
    assert_eq!(before, after);
}

#[test]
fn replaying_twice_equals_replaying_once() {
    let mut engine = StorageEngine::new(None).unwrap();
    create_users(&mut engine);
    insert_row(&mut engine, "users", vec![Value::Int(1), Value::Text("a".to_owned())]).unwrap();
    insert_row(&mut engine, "users", vec![Value::Int(2), Value::Text("b".to_owned())]).unwrap();
    let mut recovered = engine.simulate_crash();
    recovered.recover();
    let once = format!("{:?}", select_all(&mut recovered, "users").unwrap());
    recovered.recover();
    let twice = format!("{:?}", select_all(&mut recovered, "users").unwrap());
    assert_eq!(once, twice);
}

#[test]
fn recovery_rebuilds_multiple_tables() {
    let mut engine = StorageEngine::new(None).unwrap();
    create_users(&mut engine);
    let stmt = CreateTableStmt {
        table_name: "tags".to_owned(),
        columns: vec![col("tag", DataType::Text, vec![Constraint::PrimaryKey])],
    };
    engine.create_table(&stmt).unwrap();
    insert_row(&mut engine, "users", vec![Value::Int(1), Value::Text("a".to_owned())]).unwrap();
    insert_row(&mut engine, "tags", vec![Value::Text("red".to_owned())]).unwrap();
    insert_row(&mut engine, "users", vec![Value::Int(2), Value::Null]).unwrap();
    let mut recovered = engine.simulate_crash();
    recovered.recover();
    assert_eq!(select_all(&mut recovered, "users").unwrap().len(), 2);
    assert_eq!(select_all(&mut recovered, "tags").unwrap().len(), 1);
    // the recovered engine still enforces its keys
    let r = insert_row(&mut recovered, "users", vec![Value::Int(1), Value::Null]);
    assert!(matches!(r, Err(GSQLError::DuplicateKey(_))));
}
