use emdrive::components::{ColumnDefinition, DataInstance, DataInstanceRaw, DataType, TableDefinition};
use emdrive::encoding::Row;
use emdrive::paging::{construct_blank_table, empty_page_blob, Page, LATEST_LAYOUT_VERSION, PAGE_SIZE};
use emdrive::system::SystemTable;
use emdrive::tokenizer::DataTypeRaw;

fn get_test_table() -> TableDefinition {
    TableDefinition::new(
        "tables".into(),
        vec![
            ColumnDefinition {
                name: "id".into(),
                data_type: DataType { raw_type: DataTypeRaw::Uuid, is_nullable: false },
                primary_key: true,
                default: None,
            },
            ColumnDefinition {
                name: "table_name".into(),
                data_type: DataType { raw_type: DataTypeRaw::String, is_nullable: false },
                primary_key: false,
                default: None,
            },
        ],
    )
}

fn uuid_row(id: u128, name: &str) -> Row {
    Row(vec![
        DataInstance::Direct(DataInstanceRaw::Uuid(id)),
        DataInstance::Direct(DataInstanceRaw::String(name.into())),
    ])
}

#[test]
fn paging_blank_table_de_serialization_works() {
    let blank_table_blob = construct_blank_table();
    let tables_definition = get_test_table();
    let (page_0, rest) = Page::try_decode_assume(&blank_table_blob, &tables_definition).unwrap();
    assert_eq!(
        page_0,
        Page::Meta { layout_version: LATEST_LAYOUT_VERSION, b_tree_root_page_index: 1 }
    );
    let (page_1, _rest) = Page::try_decode_assume(rest, &tables_definition).unwrap();
    assert_eq!(page_1, Page::BTreeLeaf { next_leaf_page_index: 0, rows: Vec::new() });
}

#[test]
fn paging_empty_leaf_de_serialization_works() {
    let leaf_blob = Page::BTreeLeaf { next_leaf_page_index: 0, rows: Vec::new() }.to_blob();
    let (leaf_page, _rest) = Page::try_decode_assume(&leaf_blob, &get_test_table()).unwrap();
    assert_eq!(leaf_page, Page::BTreeLeaf { next_leaf_page_index: 0, rows: Vec::new() });
}

#[test]
fn paging_single_row_de_serialization_works() {
    let leaf_blob = Page::BTreeLeaf { next_leaf_page_index: 0, rows: vec![uuid_row(2, "xyz")] }.to_blob();
    let (leaf_page, _rest) = Page::try_decode_assume(&leaf_blob, &get_test_table()).unwrap();
    assert_eq!(
        leaf_page,
        Page::BTreeLeaf { next_leaf_page_index: 0, rows: vec![uuid_row(2, "xyz")] }
    );
}

#[test]
fn paging_triple_row_de_serialization_works() {
    let rows = vec![
        uuid_row(9798799999999, "Foo 🧐"),
        uuid_row(0, "Здравствуйте"),
        uuid_row(7, ""),
    ];
    let leaf_blob = Page::BTreeLeaf { next_leaf_page_index: 99, rows: rows.clone() }.to_blob();
    let (leaf_page, _rest) = Page::try_decode_assume(&leaf_blob, &get_test_table()).unwrap();
    assert_eq!(leaf_page, Page::BTreeLeaf { next_leaf_page_index: 99, rows });
}

#[test]
fn node_de_serialization_works() {
    let node_blob = Page::BTreeNode {
        primary_keys: vec![DataInstanceRaw::Uuid(123)],
        child_page_indexes: vec![3u32, 4u32],
    }
    .to_blob();
    let (node_page, _rest) = Page::try_decode_assume(&node_blob, &get_test_table()).unwrap();
    assert_eq!(
        node_page,
        Page::BTreeNode {
            primary_keys: vec![DataInstanceRaw::Uuid(123)],
            child_page_indexes: vec![3u32, 4u32],
        }
    );
}

#[test]
fn paging_string_de_serialization_works() {
    let sample: &str = "Uśmiech! 😋";
    let mut blob = empty_page_blob();
    DataInstanceRaw::String(sample.to_string()).encode(&mut blob, 0);
    let (decoded_smile, rest) = DataInstanceRaw::try_decode_assume(&blob, DataTypeRaw::String).unwrap();
    assert_eq!(decoded_smile, DataInstanceRaw::String(sample.to_string()));
    assert_eq!(rest.len(), PAGE_SIZE - 2 - sample.len());
}

#[test]
fn core_returns_ok() {
    let blank_table_blob = construct_blank_table();
    let table = get_test_table();
    assert_eq!(
        Page::try_decode_assume(&blank_table_blob[..PAGE_SIZE], &table).map(|(page, _)| page),
        Ok(Page::Meta { layout_version: LATEST_LAYOUT_VERSION, b_tree_root_page_index: 1 })
    );
    assert_eq!(
        Page::try_decode_assume(&blank_table_blob[PAGE_SIZE..], &table).map(|(page, _)| page),
        Ok(Page::BTreeLeaf { next_leaf_page_index: 0, rows: Vec::new() })
    );
}

#[test]
fn blank_table_layout() {
    let blob = construct_blank_table();
    assert_eq!(blob.len(), 16384);
    assert_eq!(blob[0], 0x00);
    assert_eq!(blob[8192], 0x21);
    assert_eq!(&blob[1..6], &[0, 0, 0, 0, 1]);
    assert!(blob[6..8192].iter().all(|b| *b == 0));
}

#[test]
fn leaf_layout_is_slots_forward_and_bodies_backward() {
    let blob = Page::BTreeLeaf { next_leaf_page_index: 5, rows: vec![uuid_row(1, "a"), uuid_row(2, "bc")] }
        .to_blob();
    assert_eq!(blob.len(), PAGE_SIZE);
    assert_eq!(&blob[0..7], &[0x21, 0, 0, 0, 5, 0, 2]);
    // First row: 16 bytes of id, 2 of length, 1 of text.
    let first = (PAGE_SIZE - 19) as u16;
    let second = first - 20;
    assert_eq!(&blob[7..9], &first.to_be_bytes());
    assert_eq!(&blob[9..11], &second.to_be_bytes());
    assert_eq!(blob[PAGE_SIZE - 1], b'a');
}

#[test]
fn pages_with_bad_markers_or_short_input_are_rejected() {
    let table = get_test_table();
    let mut blob = empty_page_blob();
    blob[0] = 0x42;
    assert!(Page::try_decode_assume(&blob, &table).is_err());
    assert!(Page::try_decode_assume(&blob[..100], &table).is_err());
    let mut meta = Page::Meta { layout_version: 0, b_tree_root_page_index: 1 }.to_blob();
    meta[1] = 7;
    assert!(Page::try_decode_assume(&meta, &table).is_err());
}

#[test]
fn system_tables_are_defined() {
    let tables = SystemTable::Tables.get_definition();
    assert_eq!(tables.name, "tables");
    assert_eq!(tables.columns.len(), 2);
    assert!(tables.validate().is_ok());
    let columns = SystemTable::Columns.get_definition();
    assert_eq!(columns.columns.len(), 4);
    assert_eq!(columns.columns[3].data_type.raw_type, DataTypeRaw::Bool);
    assert_eq!(SystemTable::all(), vec![SystemTable::Tables, SystemTable::Columns]);
}
