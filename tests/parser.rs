use emdrive::components::{
    ColumnDefinition, DataDefinition, DataInstance, DataInstanceRaw, DataType, Expression,
    TableDefinition,
};
use emdrive::statements::{
    parse_statement, CreateTableStatement, InsertStatement, SelectColumn, SelectStatement,
    Statement,
};
use emdrive::tokenizer::{DataTypeRaw, Function};

#[test]
fn parsing_works_with_create_table() {
    const STATEMENT: &str = "CREATE TABLE IF NOT EXISTS test (
            id STRING PRIMARY KEY,
            server_id nullable(UINT64),
            hash UINT128 DEFAULT 666,
            sent_at TIMESTAMP DEFAULT NOW()
        );";
    let detected_statement = parse_statement(STATEMENT).unwrap();
    assert_eq!(
        detected_statement,
        Statement::CreateTable(CreateTableStatement {
            table: TableDefinition::new(
                "test".to_string(),
                vec![
                    ColumnDefinition {
                        name: "id".to_string(),
                        data_type: DataType { raw_type: DataTypeRaw::String, is_nullable: false },
                        primary_key: true,
                        default: None,
                    },
                    ColumnDefinition {
                        name: "server_id".to_string(),
                        data_type: DataType { raw_type: DataTypeRaw::UInt64, is_nullable: true },
                        primary_key: false,
                        default: None,
                    },
                    ColumnDefinition {
                        name: "hash".to_string(),
                        data_type: DataType { raw_type: DataTypeRaw::UInt128, is_nullable: false },
                        primary_key: false,
                        default: Some(DataDefinition::Const(DataInstance::Direct(
                            DataInstanceRaw::UInt32(666)
                        ))),
                    },
                    ColumnDefinition {
                        name: "sent_at".to_string(),
                        data_type: DataType { raw_type: DataTypeRaw::Timestamp, is_nullable: false },
                        primary_key: false,
                        default: Some(DataDefinition::FunctionCall(Function::Now)),
                    },
                ]
            ),
            if_not_exists: true
        })
    )
}

#[test]
fn parsing_works_with_insert() {
    const STATEMENT: &str = "INSERT INTO xyz (foo, bar)
        VALUES (1815, 'Waterloo');";
    let detected_statement = parse_statement(STATEMENT).unwrap();
    assert_eq!(
        detected_statement,
        Statement::Insert(InsertStatement {
            table_name: "xyz".to_string(),
            column_names: vec!["foo".to_string(), "bar".to_string()],
            values: vec![
                DataInstance::Direct(DataInstanceRaw::UInt32(1815)),
                DataInstance::Direct(DataInstanceRaw::String("Waterloo".into())),
            ]
        })
    )
}

#[test]
fn parsing_works_with_select() {
    const STATEMENT: &str = "SELECT *, foo FROM xyz WHERE foo = 'bar';";
    let detected_statement = parse_statement(STATEMENT).unwrap();
    assert_eq!(
        detected_statement,
        Statement::Select(SelectStatement {
            columns: vec![SelectColumn::All, SelectColumn::Identifier("foo".to_string())],
            source: "xyz".to_string(),
            where_clause: Some(Expression::Equal(
                Box::new(Expression::Atom(DataDefinition::Identifier("foo".to_string()))),
                Box::new(Expression::Atom(DataDefinition::Const(DataInstance::Direct(
                    DataInstanceRaw::String("bar".into())
                ))))
            ))
        })
    )
}

#[test]
fn parse_create_table_with_default() {
    let statement = "CREATE TABLE IF NOT EXISTS test ( id STRING PRIMARY KEY, hash UINT128 DEFAULT 666, sent_at TIMESTAMP DEFAULT NOW() );";
    match parse_statement(statement).unwrap() {
        Statement::CreateTable(create) => {
            assert!(create.if_not_exists);
            assert_eq!(create.table.columns.len(), 3);
            assert!(create.table.columns[0].primary_key);
            assert_eq!(
                create.table.columns[1].default,
                Some(DataDefinition::Const(DataInstance::Direct(DataInstanceRaw::UInt32(666))))
            );
            assert_eq!(
                create.table.columns[2].default,
                Some(DataDefinition::FunctionCall(Function::Now))
            );
        }
        other => panic!("expected CREATE TABLE, found {:?}", other),
    }
}

#[test]
fn select_without_where() {
    let parsed = parse_statement("select a, b from t").unwrap();
    assert_eq!(
        parsed,
        Statement::Select(SelectStatement {
            columns: vec![
                SelectColumn::Identifier("a".to_string()),
                SelectColumn::Identifier("b".to_string())
            ],
            source: "t".to_string(),
            where_clause: None,
        })
    );
}

#[test]
fn trailing_tokens_are_a_syntax_error() {
    assert!(parse_statement("SELECT * FROM t extra").is_err());
    assert!(parse_statement("INSERT INTO t (a) VALUES (1) (2)").is_err());
    assert!(parse_statement("CREATE TABLE t (a UINT8 PRIMARY KEY) x").is_err());
}

#[test]
fn trailing_commas_are_a_syntax_error() {
    assert!(parse_statement("INSERT INTO t (a,) VALUES (1)").is_err());
    assert!(parse_statement("INSERT INTO t (a) VALUES (1,)").is_err());
    assert!(parse_statement("CREATE TABLE t (a UINT8,)").is_err());
    assert!(parse_statement("SELECT a, FROM t").is_err());
}

#[test]
fn nested_nullable_type_is_accepted() {
    let parsed = parse_statement("CREATE TABLE t (a NULLABLE ( UINT8 ), b UUID PRIMARY KEY)").unwrap();
    match parsed {
        Statement::CreateTable(c) => {
            assert_eq!(c.table.columns[0].data_type, DataType { raw_type: DataTypeRaw::UInt8, is_nullable: true });
            assert!(!c.if_not_exists);
        }
        other => panic!("expected CREATE TABLE, found {:?}", other),
    }
}

#[test]
fn empty_and_unknown_statements_are_errors() {
    assert_eq!(
        parse_statement("").unwrap_err().0,
        "Expected keyword `CREATE`, keyword `INSERT` or keyword `SELECT`, instead found end of statement."
    );
    assert!(parse_statement("DROP TABLE t").is_err());
    assert!(parse_statement("CREATE t").is_err());
    assert!(parse_statement("INSERT INTO t (a) VALUES (b)").is_err());
}

#[test]
fn primary_must_be_followed_by_key() {
    assert_eq!(
        parse_statement("CREATE TABLE t (a UINT8 PRIMARY)").unwrap_err().0,
        "Expected keyword `KEY`, instead found closing parenthesis `)` at line 1."
    );
}

#[test]
fn validation_failure_without_primary_key() {
    let statement = parse_statement("CREATE TABLE t (a UINT8, b UINT8)").unwrap();
    let error = statement.validate().unwrap_err();
    assert!(error.0.contains("PRIMARY KEY"));
    assert_eq!(error.to_string(), "ValidationError: A table must have exactly 1 PRIMARY KEY column, not 0");
}

#[test]
fn validation_of_tables_and_inserts() {
    assert!(parse_statement("CREATE TABLE t (a UINT8 PRIMARY KEY, b UINT8)").unwrap().validate().is_ok());
    let duplicate = parse_statement("CREATE TABLE t (a UINT8 PRIMARY KEY, a UINT8)").unwrap();
    assert_eq!(
        duplicate.validate().unwrap_err().0,
        "There is more than one column with name `a` in table definition"
    );
    let two_keys = parse_statement("CREATE TABLE t (a UINT8 PRIMARY KEY, b UINT8 PRIMARY KEY)").unwrap();
    assert!(two_keys.validate().is_err());
    let mismatched = parse_statement("INSERT INTO t (a, b) VALUES (1)").unwrap();
    assert!(mismatched.validate().is_err());
    let repeated = parse_statement("INSERT INTO t (a, a) VALUES (1, 2)").unwrap();
    assert!(repeated.validate().is_err());
    assert!(parse_statement("INSERT INTO t (a, b) VALUES (1, NULL)").unwrap().validate().is_ok());
    assert!(parse_statement("SELECT * FROM t").unwrap().validate().is_ok());
}

#[test]
fn trailing_comma_is_reported_as_such() {
    assert_eq!(
        parse_statement("INSERT INTO t (a,) VALUES (1)").unwrap_err().0,
        "Found disallowed trailing comma `,` at line 1."
    );
}
