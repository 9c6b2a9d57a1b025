use emdrive::btree::{b_tree_insert, b_tree_lookup, check_pages, child_index_for_key, compare_keys, read_all_rows, BTreeError};
use emdrive::components::{ColumnDefinition, DataInstance, DataInstanceRaw, DataType, TableDefinition};
use emdrive::encoding::Row;
use emdrive::executor::{catalog_rows, coerce, project_rows, row_for_insert};
use emdrive::paging::Page;
use emdrive::statements::{parse_statement, SelectColumn, Statement};
use emdrive::tokenizer::DataTypeRaw;

fn table() -> TableDefinition {
    TableDefinition::new(
        "people".into(),
        vec![
            ColumnDefinition {
                name: "id".into(),
                data_type: DataType { raw_type: DataTypeRaw::UInt32, is_nullable: false },
                primary_key: true,
                default: None,
            },
            ColumnDefinition {
                name: "name".into(),
                data_type: DataType { raw_type: DataTypeRaw::String, is_nullable: true },
                primary_key: false,
                default: None,
            },
        ],
    )
}

fn blank_pages() -> Vec<Page> {
    vec![
        Page::Meta { layout_version: 0, b_tree_root_page_index: 1 },
        Page::BTreeLeaf { next_leaf_page_index: 0, rows: Vec::new() },
    ]
}

fn person(id: u32, name: &str) -> Row {
    Row(vec![
        DataInstance::Direct(DataInstanceRaw::UInt32(id)),
        DataInstance::Nullable(DataInstanceRaw::String(name.to_string())),
    ])
}

fn ids(rows: &[Row]) -> Vec<u32> {
    rows.iter()
        .map(|row| match &row.0[0] {
            DataInstance::Direct(DataInstanceRaw::UInt32(id)) => *id,
            other => panic!("unexpected key {:?}", other),
        })
        .collect()
}

#[test]
fn keys_compare_by_type_rules() {
    assert_eq!(compare_keys(&DataInstanceRaw::UInt8(1), &DataInstanceRaw::UInt8(2)), -1);
    assert_eq!(compare_keys(&DataInstanceRaw::Timestamp(-5), &DataInstanceRaw::Timestamp(-6)), 1);
    assert_eq!(
        compare_keys(&DataInstanceRaw::String("ab".into()), &DataInstanceRaw::String("b".into())),
        -1
    );
    assert_eq!(
        compare_keys(&DataInstanceRaw::String("ab".into()), &DataInstanceRaw::String("a".into())),
        1
    );
    assert_eq!(compare_keys(&DataInstanceRaw::Uuid(7), &DataInstanceRaw::Uuid(7)), 0);
    assert_eq!(compare_keys(&DataInstanceRaw::Bool(false), &DataInstanceRaw::Bool(true)), -1);
}

#[test]
fn routing_picks_the_first_greater_key() {
    let keys = vec![DataInstanceRaw::UInt32(10), DataInstanceRaw::UInt32(20)];
    assert_eq!(child_index_for_key(&keys, &DataInstanceRaw::UInt32(5)), 0);
    assert_eq!(child_index_for_key(&keys, &DataInstanceRaw::UInt32(10)), 1);
    assert_eq!(child_index_for_key(&keys, &DataInstanceRaw::UInt32(15)), 1);
    assert_eq!(child_index_for_key(&keys, &DataInstanceRaw::UInt32(25)), 2);
}

#[test]
fn empty_tree_has_no_rows() {
    let pages = blank_pages();
    assert!(check_pages(&pages));
    assert_eq!(read_all_rows(&pages), Ok(vec![]));
    assert_eq!(b_tree_lookup(&pages, &table(), &DataInstanceRaw::UInt32(1)), Ok(None));
}

#[test]
fn inserts_keep_key_order_and_reject_duplicates() {
    let mut pages = blank_pages();
    for id in [5u32, 1, 3] {
        b_tree_insert(&mut pages, &table(), person(id, "x")).unwrap();
    }
    assert_eq!(ids(&read_all_rows(&pages).unwrap()), vec![1, 3, 5]);
    let before = pages.clone();
    assert_eq!(b_tree_insert(&mut pages, &table(), person(3, "again")), Err(BTreeError::DuplicateKey));
    assert_eq!(pages, before);
    assert_eq!(b_tree_lookup(&pages, &table(), &DataInstanceRaw::UInt32(3)).unwrap(), Some(person(3, "x")));
}

#[test]
fn many_inserts_split_leaves_and_nodes() {
    let mut pages = blank_pages();
    let name = "n".repeat(200);
    let mut expected = Vec::new();
    for i in 0..600u32 {
        let id = (i * 7919) % 600;
        b_tree_insert(&mut pages, &table(), person(id, &name)).unwrap();
        expected.push(id);
    }
    expected.sort();
    assert!(check_pages(&pages));
    assert!(pages.len() > 2);
    assert!(matches!(pages[0], Page::Meta { b_tree_root_page_index, .. } if b_tree_root_page_index != 1));
    assert!(pages.iter().all(|page| page.fits()));
    assert_eq!(ids(&read_all_rows(&pages).unwrap()), expected);
    for id in [0u32, 299, 599] {
        assert_eq!(
            b_tree_lookup(&pages, &table(), &DataInstanceRaw::UInt32(id)).unwrap(),
            Some(person(id, &name))
        );
    }
    // Every page serializes and reads back.
    for page in &pages {
        let blob = page.to_blob();
        let (decoded, _) = Page::try_decode_assume(&blob, &table()).unwrap();
        assert_eq!(&decoded, page);
    }
}

#[test]
fn oversized_rows_and_missing_keys_are_rejected() {
    let mut pages = blank_pages();
    let huge = person(1, &"x".repeat(9000));
    assert_eq!(b_tree_insert(&mut pages, &table(), huge), Err(BTreeError::RowTooLarge));
    let no_key = Row(vec![DataInstance::Null, DataInstance::Null]);
    assert_eq!(b_tree_insert(&mut pages, &table(), no_key), Err(BTreeError::InvalidRow));
    assert_eq!(pages, blank_pages());
}

#[test]
fn insert_statements_become_rows() {
    let insert = match parse_statement("INSERT INTO people (name, id) VALUES ('Ada', 7)").unwrap() {
        Statement::Insert(insert) => insert,
        other => panic!("expected INSERT, found {:?}", other),
    };
    assert_eq!(row_for_insert(&table(), &insert).unwrap(), person(7, "Ada"));
    let missing_key = match parse_statement("INSERT INTO people (name) VALUES ('Ada')").unwrap() {
        Statement::Insert(insert) => insert,
        other => panic!("expected INSERT, found {:?}", other),
    };
    assert!(row_for_insert(&table(), &missing_key).is_err());
    let only_key = match parse_statement("INSERT INTO people (id) VALUES (8)").unwrap() {
        Statement::Insert(insert) => insert,
        other => panic!("expected INSERT, found {:?}", other),
    };
    assert_eq!(
        row_for_insert(&table(), &only_key).unwrap(),
        Row(vec![DataInstance::Direct(DataInstanceRaw::UInt32(8)), DataInstance::Null])
    );
}

#[test]
fn literals_are_coerced_to_column_types() {
    let small = DataType { raw_type: DataTypeRaw::UInt8, is_nullable: false };
    assert_eq!(
        coerce(&DataInstance::Direct(DataInstanceRaw::UInt32(200)), small),
        Some(DataInstance::Direct(DataInstanceRaw::UInt8(200)))
    );
    assert_eq!(coerce(&DataInstance::Direct(DataInstanceRaw::UInt32(300)), small), None);
    assert_eq!(coerce(&DataInstance::Null, small), None);
    let text = DataType { raw_type: DataTypeRaw::String, is_nullable: true };
    assert_eq!(coerce(&DataInstance::Null, text), Some(DataInstance::Null));
    assert_eq!(coerce(&DataInstance::Direct(DataInstanceRaw::UInt32(1)), text), None);
}

#[test]
fn selects_project_columns() {
    let rows = vec![person(1, "a"), person(2, "b")];
    let result = project_rows(&table(), &vec![SelectColumn::Identifier("name".into()), SelectColumn::All], &rows).unwrap();
    assert_eq!(result.column_names, vec!["name", "id", "name"]);
    assert_eq!(result.rows[1].0[0], DataInstance::Nullable(DataInstanceRaw::String("b".into())));
    assert_eq!(result.rows[1].0[1], DataInstance::Direct(DataInstanceRaw::UInt32(2)));
    assert!(project_rows(&table(), &vec![SelectColumn::Identifier("nope".into())], &rows).is_err());
}

#[test]
fn catalog_entries_describe_the_table() {
    let (table_row, column_rows) = catalog_rows(&table());
    assert_eq!(table_row.0[1], DataInstance::Direct(DataInstanceRaw::String("people".into())));
    assert_eq!(column_rows.len(), 2);
    assert_eq!(column_rows[0].0[2], DataInstance::Direct(DataInstanceRaw::String("UINT32".into())));
    assert_eq!(column_rows[1].0[3], DataInstance::Direct(DataInstanceRaw::Bool(true)));
}
