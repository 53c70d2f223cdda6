use gsql::parser::{
    ColumnDef, Constraint, CreateTableStmt, DataType, Expression, InsertStmt, SelectItem,
    SelectStmt, Statement, TableRef,
};
use gsql::value::Value;
use gsql::{QueryResult, GSQL};

#[test]
fn facade_runs_a_session() {
    let mut db = GSQL::new(None).unwrap();
    let create = Statement::CreateTable(CreateTableStmt {
        table_name: "users".to_owned(),
        columns: vec![
            ColumnDef {
                name: "id".to_owned(),
                data_type: DataType::Int,
                constraints: vec![Constraint::PrimaryKey],
            },
            ColumnDef { name: "name".to_owned(), data_type: DataType::Text, constraints: vec![] },
        ],
    });
    match db.query(&create).unwrap() {
        QueryResult::Create { table } => assert_eq!(table, "users"),
        _ => panic!("wrong result"),
    }
    let insert = Statement::Insert(InsertStmt {
        table_name: "users".to_owned(),
        columns: vec![],
        values: vec![vec![
            Expression::Literal(Value::Int(1)),
            Expression::Literal(Value::Text("alice".to_owned())),
        ]],
    });
    match db.query(&insert).unwrap() {
        QueryResult::Insert { rows_affected } => assert_eq!(rows_affected, 1),
        _ => panic!("wrong result"),
    }
    let select = Statement::Select(SelectStmt {
        columns: vec![SelectItem::All],
        from: TableRef::Table("users".to_owned()),
        where_clause: None,
    });
    match db.query(&select).unwrap() {
        QueryResult::Select { columns, rows } => {
            assert_eq!(columns, vec!["*".to_owned()]);
            assert_eq!(rows.len(), 1);
        }
        _ => panic!("wrong result"),
    }
}
