//! Pages: the fixed-size units of a table file, and their binary layout.

use crate::components::{raw_type_of, ColumnDefinition, DataInstance, DataInstanceRaw, DataType, TableDefinition};
use crate::tokenizer::DataTypeRaw;
use crate::encoding::{
    be_bytes, be_value, lemma_be_bytes_len, lemma_be_round_trip, lemma_pow256_values,
    lemma_raw_encoding_len, pow256, raw_encodable, raw_encoding, read_be, row_encodable,
    instance_same, lemma_row_round_trip, raw_same, raw_valid, row_conforms, row_decodable_upto,
    row_decoded, row_encoding, row_offset, write_be, Row,
};
use vstd::prelude::*;
use vstd::string::*;

verus! {

/// Each page is 8 KiB long.
pub const PAGE_SIZE: usize = 8192;

/// Latest version of the on-disk layout.
pub const LATEST_LAYOUT_VERSION: u8 = 0;

/// Marker byte of a meta page.
pub const META_MARKER: u8 = 0x00;

/// Marker byte of a B+ tree node page.
pub const NODE_MARKER: u8 = 0x20;

/// Marker byte of a B+ tree leaf page.
pub const LEAF_MARKER: u8 = 0x21;

/// Bytes before a leaf's slot directory: marker, next leaf index, row count.
pub const LEAF_HEADER_SIZE: usize = 7;

/// The kinds of page.
#[derive(Debug, PartialEq, Eq, Clone)]
pub enum Page {
    /// Page 0 of every table file.
    Meta {
        /// Version of the on-disk layout in use.
        layout_version: u8,
        /// Page index of the B+ tree root.
        b_tree_root_page_index: u32,
    },
    /// An interior node of the B+ tree.
    BTreeNode {
        /// Routing keys, one fewer than the children.
        primary_keys: Vec<DataInstanceRaw>,
        /// Page indexes of the children.
        child_page_indexes: Vec<u32>,
    },
    /// A leaf of the B+ tree.
    BTreeLeaf {
        /// Page index of the next leaf in key order; 0 (the meta page) for none.
        next_leaf_page_index: u32,
        /// The rows, in ascending primary-key order.
        rows: Vec<Row>,
    },
}

/// A page of zeros.
pub fn empty_page_blob() -> (r: Vec<u8>)
    ensures
        r@.len() == PAGE_SIZE,
        forall|i: int| 0 <= i < PAGE_SIZE ==> r@[i] == 0,
{
    vec![0u8; PAGE_SIZE]
}

// ---------------------------------------------------------------------------
// Leaf layout

/// Total encoded length of the first `k` rows.
pub open spec fn rows_len(rows: Seq<Row>, k: int) -> nat
    decreases k,
{
    if k <= 0 {
        0
    } else {
        rows_len(rows, k - 1) + row_encoding(rows[k - 1].0@).len()
    }
}

/// Where the body of row `i` starts: bodies are written from the end of the
/// page backwards, in row order.
pub open spec fn row_start(rows: Seq<Row>, i: int) -> int {
    PAGE_SIZE - rows_len(rows, i + 1)
}

/// The rows fit in a leaf: the slot directory ends before the first body.
pub open spec fn leaf_fits(rows: Seq<Row>) -> bool {
    &&& rows.len() <= 0xffff
    &&& forall|i: int| 0 <= i < rows.len() ==> row_encodable(#[trigger] rows[i].0@)
    &&& LEAF_HEADER_SIZE + 2 * rows.len() + rows_len(rows, rows.len() as int) <= PAGE_SIZE
}

/// `bs` is the leaf with these fields: marker, next leaf index, row count, one
/// slot per row holding where its body starts, the bodies at the back, zeros
/// in between.
pub open spec fn leaf_bytes(bs: Seq<u8>, next: u32, rows: Seq<Row>) -> bool {
    let n = rows.len() as int;
    &&& bs.len() == PAGE_SIZE
    &&& bs[0] == LEAF_MARKER
    &&& bs.subrange(1, 5) == be_bytes(next as nat, 4)
    &&& bs.subrange(5, 7) == be_bytes(n as nat, 2)
    &&& forall|i: int|
        0 <= i < n ==> bs.subrange(7 + 2 * i, 9 + 2 * i) == be_bytes(
            #[trigger] row_start(rows, i) as nat,
            2,
        ) && bs.subrange(row_start(rows, i), row_start(rows, i) + row_encoding(rows[i].0@).len())
            == row_encoding(rows[i].0@)
    &&& forall|k: int| 7 + 2 * n <= k < row_start(rows, n - 1) ==> bs[k] == 0
}

proof fn lemma_rows_len_grows(rows: Seq<Row>, a: int, b: int)
    requires
        a <= b,
    ensures
        rows_len(rows, a) <= rows_len(rows, b),
    decreases b - a,
{
    if a < b {
        lemma_rows_len_grows(rows, a, b - 1);
    }
}

fn leaf_blob(next_leaf_page_index: u32, rows: &Vec<Row>) -> (r: Vec<u8>)
    requires
        leaf_fits(rows@),
    ensures
        leaf_bytes(r@, next_leaf_page_index, rows@),
{
    let n = rows.len();
    let mut blob = empty_page_blob();
    proof {
        lemma_pow256_values();
    }
    blob.set(0, LEAF_MARKER);
    write_be(&mut blob, 1, next_leaf_page_index as u128, 4);
    write_be(&mut blob, 5, n as u128, 2);
    let ghost header = blob@;
    proof {
        lemma_be_bytes_len(next_leaf_page_index as nat, 4);
        lemma_be_bytes_len(n as nat, 2);
        assert(blob@.subrange(1, 5) =~= be_bytes(next_leaf_page_index as nat, 4));
        assert(blob@.subrange(5, 7) =~= be_bytes(n as nat, 2));
        lemma_rows_len_grows(rows@, 0, n as int);
    }
    let mut back: usize = PAGE_SIZE;
    let mut i: usize = 0;
    while i < n
        invariant
            n == rows@.len(),
            leaf_fits(rows@),
            i <= n,
            blob@.len() == PAGE_SIZE,
            back as int == PAGE_SIZE - rows_len(rows@, i as int),
            blob@[0] == LEAF_MARKER,
            blob@.subrange(1, 5) == be_bytes(next_leaf_page_index as nat, 4),
            blob@.subrange(5, 7) == be_bytes(n as nat, 2),
            forall|j: int|
                0 <= j < i ==> blob@.subrange(7 + 2 * j, 9 + 2 * j) == be_bytes(
                    #[trigger] row_start(rows@, j) as nat,
                    2,
                ) && blob@.subrange(
                    row_start(rows@, j),
                    row_start(rows@, j) + row_encoding(rows@[j].0@).len(),
                ) == row_encoding(rows@[j].0@),
            forall|k: int| 7 + 2 * i <= k < back ==> blob@[k] == 0,
        decreases n - i,
    {
        proof {
            lemma_rows_len_grows(rows@, i + 1, n as int);
            assert(rows_len(rows@, i + 1) == rows_len(rows@, i as int) + row_encoding(rows@[i as int].0@).len());
        }
        let ghost before = blob@;
        let start = rows[i].encode_back(&mut blob, back);
        let ghost middle = blob@;
        proof {
            assert(start as int == row_start(rows@, i as int));
            assert(start < 0x1_0000);
            lemma_pow256_values();
        }
        write_be(&mut blob, 7 + 2 * i, start as u128, 2);
        proof {
            lemma_be_bytes_len(start as nat, 2);
            let len_i = row_encoding(rows@[i as int].0@).len();
            assert(blob@.subrange(7 + 2 * i, 9 + 2 * i) =~= be_bytes(start as nat, 2));
            assert(blob@.subrange(start as int, start + len_i) =~= row_encoding(rows@[i as int].0@));
            assert(blob@.subrange(1, 5) =~= before.subrange(1, 5));
            assert(blob@.subrange(5, 7) =~= before.subrange(5, 7));
            assert forall|j: int| 0 <= j < i implies blob@.subrange(7 + 2 * j, 9 + 2 * j) == be_bytes(
                #[trigger] row_start(rows@, j) as nat,
                2,
            ) && blob@.subrange(
                row_start(rows@, j),
                row_start(rows@, j) + row_encoding(rows@[j].0@).len(),
            ) == row_encoding(rows@[j].0@) by {
                lemma_rows_len_grows(rows@, j + 1, i as int);
                assert(blob@.subrange(7 + 2 * j, 9 + 2 * j) =~= before.subrange(7 + 2 * j, 9 + 2 * j));
                assert(blob@.subrange(
                    row_start(rows@, j),
                    row_start(rows@, j) + row_encoding(rows@[j].0@).len(),
                ) =~= before.subrange(
                    row_start(rows@, j),
                    row_start(rows@, j) + row_encoding(rows@[j].0@).len(),
                ));
            }
        }
        back = start;
        i += 1;
    }
    blob
}

// ---------------------------------------------------------------------------
// Meta and node layout

/// `bs` is the meta page with these fields, zeros after them.
pub open spec fn meta_bytes(bs: Seq<u8>, layout_version: u8, root: u32) -> bool {
    &&& bs.len() == PAGE_SIZE
    &&& bs[0] == META_MARKER
    &&& bs[1] == layout_version
    &&& bs.subrange(2, 6) == be_bytes(root as nat, 4)
    &&& forall|k: int| 6 <= k < PAGE_SIZE ==> bs[k] == 0
}

/// Routing keys are stored one after the other.
pub open spec fn keys_encoding(keys: Seq<DataInstanceRaw>) -> Seq<u8>
    decreases keys.len(),
{
    if keys.len() == 0 {
        Seq::empty()
    } else {
        keys_encoding(keys.drop_last()) + raw_encoding(keys.last())
    }
}

/// Child indexes are stored one after the other, four bytes each.
pub open spec fn children_encoding(children: Seq<u32>) -> Seq<u8>
    decreases children.len(),
{
    if children.len() == 0 {
        Seq::empty()
    } else {
        children_encoding(children.drop_last()) + be_bytes(children.last() as nat, 4)
    }
}

/// A node fits in a page: one more child than keys, and room for all of them.
pub open spec fn node_fits(keys: Seq<DataInstanceRaw>, children: Seq<u32>) -> bool {
    &&& children.len() == keys.len() + 1
    &&& children.len() <= 0xffff
    &&& forall|i: int| 0 <= i < keys.len() ==> raw_encodable(#[trigger] keys[i])
    &&& 3 + keys_encoding(keys).len() + 4 * children.len() <= PAGE_SIZE
}

/// `bs` is the node with these fields: marker, arity, keys, children, zeros.
pub open spec fn node_bytes(bs: Seq<u8>, keys: Seq<DataInstanceRaw>, children: Seq<u32>) -> bool {
    let k = keys_encoding(keys).len() as int;
    let c = children_encoding(children).len() as int;
    &&& bs.len() == PAGE_SIZE
    &&& bs[0] == NODE_MARKER
    &&& bs.subrange(1, 3) == be_bytes(children.len() as nat, 2)
    &&& bs.subrange(3, 3 + k) == keys_encoding(keys)
    &&& bs.subrange(3 + k, 3 + k + c) == children_encoding(children)
    &&& forall|j: int| 3 + k + c <= j < PAGE_SIZE ==> bs[j] == 0
}

proof fn lemma_children_encoding_len(children: Seq<u32>)
    ensures
        children_encoding(children).len() == 4 * children.len(),
    decreases children.len(),
{
    if children.len() > 0 {
        lemma_children_encoding_len(children.drop_last());
        lemma_be_bytes_len(children.last() as nat, 4);
    }
}

proof fn lemma_keys_encoding_grows(keys: Seq<DataInstanceRaw>, j: int)
    requires
        0 <= j <= keys.len(),
    ensures
        keys_encoding(keys.take(j)).len() <= keys_encoding(keys).len(),
    decreases keys.len() - j,
{
    if j < keys.len() {
        lemma_keys_encoding_grows(keys, j + 1);
        assert(keys.take(j + 1).drop_last() =~= keys.take(j));
    } else {
        assert(keys.take(j) =~= keys);
    }
}

fn meta_blob(layout_version: u8, root: u32) -> (r: Vec<u8>)
    ensures
        meta_bytes(r@, layout_version, root),
{
    let mut blob = empty_page_blob();
    proof {
        lemma_pow256_values();
    }
    blob.set(0, META_MARKER);
    blob.set(1, layout_version);
    write_be(&mut blob, 2, root as u128, 4);
    proof {
        lemma_be_bytes_len(root as nat, 4);
        assert(blob@.subrange(2, 6) =~= be_bytes(root as nat, 4));
    }
    blob
}

fn node_blob(keys: &Vec<DataInstanceRaw>, children: &Vec<u32>) -> (r: Vec<u8>)
    requires
        node_fits(keys@, children@),
    ensures
        node_bytes(r@, keys@, children@),
{
    let mut blob = empty_page_blob();
    proof {
        lemma_pow256_values();
        lemma_children_encoding_len(children@);
    }
    blob.set(0, NODE_MARKER);
    write_be(&mut blob, 1, children.len() as u128, 2);
    proof {
        lemma_be_bytes_len(children@.len() as nat, 2);
        assert(blob@.subrange(1, 3) =~= be_bytes(children@.len() as nat, 2));
    }
    let mut position: usize = 3;
    let mut i: usize = 0;
    while i < keys.len()
        invariant
            node_fits(keys@, children@),
            i <= keys@.len(),
            blob@.len() == PAGE_SIZE,
            blob@[0] == NODE_MARKER,
            blob@.subrange(1, 3) == be_bytes(children@.len() as nat, 2),
            position == 3 + keys_encoding(keys@.take(i as int)).len(),
            blob@.subrange(3, position as int) == keys_encoding(keys@.take(i as int)),
            forall|j: int| position <= j < PAGE_SIZE ==> blob@[j] == 0,
        decreases keys@.len() - i,
    {
        proof {
            assert(keys@.take(i + 1).drop_last() =~= keys@.take(i as int));
            lemma_keys_encoding_grows(keys@, i + 1);
        }
        let ghost before = blob@;
        let next = keys[i].encode(&mut blob, position);
        proof {
            assert(blob@.subrange(3, next as int) =~= keys_encoding(keys@.take(i + 1)));
            assert(blob@.subrange(1, 3) =~= before.subrange(1, 3));
        }
        position = next;
        i += 1;
    }
    proof {
        assert(keys@.take(i as int) =~= keys@);
    }
    let keys_end = position;
    let mut j: usize = 0;
    while j < children.len()
        invariant
            node_fits(keys@, children@),
            j <= children@.len(),
            blob@.len() == PAGE_SIZE,
            blob@[0] == NODE_MARKER,
            blob@.subrange(1, 3) == be_bytes(children@.len() as nat, 2),
            keys_end == 3 + keys_encoding(keys@).len(),
            blob@.subrange(3, keys_end as int) == keys_encoding(keys@),
            position == keys_end + 4 * j,
            blob@.subrange(keys_end as int, position as int) == children_encoding(children@.take(j as int)),
            forall|k: int| position <= k < PAGE_SIZE ==> blob@[k] == 0,
        decreases children@.len() - j,
    {
        proof {
            assert(children@.take(j + 1).drop_last() =~= children@.take(j as int));
            lemma_be_bytes_len(children@[j as int] as nat, 4);
            lemma_pow256_values();
        }
        let ghost before = blob@;
        write_be(&mut blob, position, children[j] as u128, 4);
        proof {
            assert(blob@.subrange(keys_end as int, position + 4) =~= children_encoding(children@.take(j + 1)));
            assert(blob@.subrange(1, 3) =~= before.subrange(1, 3));
            assert(blob@.subrange(3, keys_end as int) =~= before.subrange(3, keys_end as int));
        }
        position = position + 4;
        j += 1;
    }
    proof {
        assert(children@.take(j as int) =~= children@);
    }
    blob
}

/// The page is well formed and fits: a node has one more child than keys.
pub open spec fn page_fits(p: Page) -> bool {
    match p {
        Page::Meta { .. } => true,
        Page::BTreeNode { primary_keys, child_page_indexes } => node_fits(
            primary_keys@,
            child_page_indexes@,
        ),
        Page::BTreeLeaf { rows, .. } => leaf_fits(rows@),
    }
}

/// `bs` is the serialized form of `p`.
pub open spec fn page_bytes(bs: Seq<u8>, p: Page) -> bool {
    match p {
        Page::Meta { layout_version, b_tree_root_page_index } => meta_bytes(
            bs,
            layout_version,
            b_tree_root_page_index,
        ),
        Page::BTreeNode { primary_keys, child_page_indexes } => node_bytes(
            bs,
            primary_keys@,
            child_page_indexes@,
        ),
        Page::BTreeLeaf { next_leaf_page_index, rows } => leaf_bytes(
            bs,
            next_leaf_page_index,
            rows@,
        ),
    }
}

impl Page {
    /// The page's bytes: always exactly one page long.
    pub fn to_blob(&self) -> (r: Vec<u8>)
        requires
            page_fits(*self),
        ensures
            r@.len() == PAGE_SIZE,
            page_bytes(r@, *self),
    {
        match self {
            Page::Meta { layout_version, b_tree_root_page_index } => meta_blob(
                *layout_version,
                *b_tree_root_page_index,
            ),
            Page::BTreeNode { primary_keys, child_page_indexes } => node_blob(
                primary_keys,
                child_page_indexes,
            ),
            Page::BTreeLeaf { next_leaf_page_index, rows } => leaf_blob(*next_leaf_page_index, rows),
        }
    }
}

/// A new table file: a meta page pointing at page 1 as the root, then an empty
/// leaf with no next leaf.
pub fn construct_blank_table() -> (r: Vec<u8>)
    ensures
        r@.len() == 2 * PAGE_SIZE,
        meta_bytes(r@.take(PAGE_SIZE as int), LATEST_LAYOUT_VERSION, 1),
        leaf_bytes(r@.skip(PAGE_SIZE as int), 0, Seq::empty()),
{
    let mut blob = meta_blob(LATEST_LAYOUT_VERSION, 1);
    let leaf = leaf_blob(0, &Vec::new());
    let ghost first = blob@;
    let mut i: usize = 0;
    while i < PAGE_SIZE
        invariant
            i <= PAGE_SIZE,
            leaf@.len() == PAGE_SIZE,
            blob@ == first + leaf@.take(i as int),
        decreases PAGE_SIZE - i,
    {
        blob.push(leaf[i]);
        proof {
            assert(leaf@.take(i + 1) =~= leaf@.take(i as int).push(leaf@[i as int]));
        }
        i += 1;
    }
    proof {
        assert(blob@.take(PAGE_SIZE as int) =~= first);
        assert(blob@.skip(PAGE_SIZE as int) =~= leaf@);
    }
    blob
}

// ---------------------------------------------------------------------------
// Reading pages

/// The column types of a table, in column order.
pub open spec fn column_types(t: TableDefinition) -> Seq<DataType> {
    t.columns@.map_values(|c: ColumnDefinition| c.data_type)
}

/// The offset held by slot `i` of a leaf.
pub open spec fn slot_at(bs: Seq<u8>, i: int) -> nat {
    be_value(bs.subrange(7 + 2 * i, 9 + 2 * i))
}

/// The row count of a leaf.
pub open spec fn leaf_count(bs: Seq<u8>) -> nat {
    be_value(bs.subrange(5, 7))
}

/// The bytes of a leaf can be read: the slots fit in the page, each points
/// past the header, and a row of the table's types starts there.
pub open spec fn leaf_decodable(bs: Seq<u8>, ts: Seq<DataType>) -> bool {
    &&& LEAF_HEADER_SIZE + 2 * leaf_count(bs) <= PAGE_SIZE
    &&& forall|i: int|
        0 <= i < leaf_count(bs) ==> 6 < #[trigger] slot_at(bs, i) <= PAGE_SIZE && row_decodable_upto(
            bs.subrange(slot_at(bs, i) as int, PAGE_SIZE as int),
            ts,
            ts.len(),
        )
}

/// `rows` and `next` are what the leaf in `bs` holds.
pub open spec fn leaf_decoded(bs: Seq<u8>, ts: Seq<DataType>, next: u32, rows: Seq<Row>) -> bool {
    &&& next as nat == be_value(bs.subrange(1, 5))
    &&& rows.len() == leaf_count(bs)
    &&& forall|i: int|
        0 <= i < rows.len() ==> 6 < slot_at(bs, i) <= PAGE_SIZE && row_decoded(
            bs.subrange(slot_at(bs, i) as int, PAGE_SIZE as int),
            ts,
            (#[trigger] rows[i]).0@,
        )
}

fn column_types_of(table: &TableDefinition) -> (r: Vec<DataType>)
    ensures
        r@ == column_types(*table),
{
    let mut types: Vec<DataType> = Vec::new();
    let mut i: usize = 0;
    while i < table.columns.len()
        invariant
            i <= table.columns@.len(),
            types@ == column_types(*table).take(i as int),
        decreases table.columns@.len() - i,
    {
        types.push(table.columns[i].data_type);
        proof {
            assert(column_types(*table).take(i + 1) =~= column_types(*table).take(i as int).push(
                table.columns@[i as int].data_type,
            ));
        }
        i += 1;
    }
    proof {
        assert(column_types(*table).take(i as int) =~= column_types(*table));
    }
    types
}

fn decode_leaf(page: &[u8], types: &Vec<DataType>) -> (r: Result<(u32, Vec<Row>), String>)
    requires
        page@.len() == PAGE_SIZE,
    ensures
        r is Ok <==> leaf_decodable(page@, types@),
        r matches Ok((next, rows)) ==> leaf_decoded(page@, types@, next, rows@),
{
    let next_bytes = &page[1..5];
    let count_bytes = &page[5..7];
    let next = read_be(next_bytes, 4);
    let count = read_be(count_bytes, 2);
    proof {
        assert(next_bytes@ =~= page@.subrange(1, 5));
        assert(count_bytes@ =~= page@.subrange(5, 7));
        assert(page@.subrange(1, 5).take(4) =~= page@.subrange(1, 5));
        assert(page@.subrange(5, 7).take(2) =~= page@.subrange(5, 7));
        crate::encoding::lemma_be_value_bound(page@.subrange(1, 5));
        crate::encoding::lemma_be_value_bound(page@.subrange(5, 7));
        lemma_pow256_values();
    }
    let count = count as usize;
    if 7 + 2 * count > PAGE_SIZE {
        return Err(String::from_str("Leaf slot directory overflows the page"));
    }
    let mut rows: Vec<Row> = Vec::new();
    let mut i: usize = 0;
    while i < count
        invariant
            page@.len() == PAGE_SIZE,
            count == leaf_count(page@),
            7 + 2 * count <= PAGE_SIZE,
            i <= count,
            rows@.len() == i,
            forall|j: int|
                0 <= j < i ==> 6 < #[trigger] slot_at(page@, j) <= PAGE_SIZE && row_decodable_upto(
                    page@.subrange(slot_at(page@, j) as int, PAGE_SIZE as int),
                    types@,
                    types@.len(),
                ),
            forall|j: int|
                0 <= j < i ==> row_decoded(
                    page@.subrange(slot_at(page@, j) as int, PAGE_SIZE as int),
                    types@,
                    (#[trigger] rows@[j]).0@,
                ),
        decreases count - i,
    {
        let slot = &page[7 + 2 * i..9 + 2 * i];
        let offset = read_be(slot, 2) as usize;
        proof {
            assert(slot@ =~= page@.subrange(7 + 2 * i, 9 + 2 * i));
            assert(slot@.take(2) =~= slot@);
            crate::encoding::lemma_be_value_bound(slot@);
            lemma_pow256_values();
            assert(offset == slot_at(page@, i as int));
        }
        if offset <= 6 || offset > PAGE_SIZE {
            return Err(String::from_str("Row offset outside of the page body"));
        }
        let body = &page[offset..PAGE_SIZE];
        proof {
            assert(body@ =~= page@.subrange(offset as int, PAGE_SIZE as int));
        }
        match Row::try_decode_assume(body, types.as_slice()) {
            Ok((row, _)) => {
                rows.push(row);
            },
            Err(e) => return Err(e),
        }
        i += 1;
    }
    Ok((next as u32, rows))
}

/// The types of a node's keys: `n` non-nullable values of the key type.
pub open spec fn key_types(key_type: DataTypeRaw, n: nat) -> Seq<DataType> {
    Seq::new(n, |i: int| DataType { raw_type: key_type, is_nullable: false })
}

/// Keys as the column values they are stored as.
pub open spec fn keys_as_values(keys: Seq<DataInstanceRaw>) -> Seq<DataInstance> {
    keys.map_values(|k: DataInstanceRaw| DataInstance::Direct(k))
}

/// The arity of a node.
pub open spec fn node_arity(bs: Seq<u8>) -> nat {
    be_value(bs.subrange(1, 3))
}

/// Where a node's child indexes start.
pub open spec fn node_children_start(bs: Seq<u8>, key_type: DataTypeRaw) -> int {
    let body = bs.subrange(3, PAGE_SIZE as int);
    let kt = key_types(key_type, (node_arity(bs) - 1) as nat);
    3 + row_offset(body, kt, kt.len()) as int
}

/// The bytes of a node can be read: at least one child, the keys, and room for
/// the child indexes after them.
pub open spec fn node_decodable(bs: Seq<u8>, key_type: DataTypeRaw) -> bool {
    let body = bs.subrange(3, PAGE_SIZE as int);
    let kt = key_types(key_type, (node_arity(bs) - 1) as nat);
    &&& node_arity(bs) >= 1
    &&& row_decodable_upto(body, kt, kt.len())
    &&& node_children_start(bs, key_type) + 4 * node_arity(bs) <= PAGE_SIZE
}

/// `keys` and `children` are what the node in `bs` holds.
pub open spec fn node_decoded(
    bs: Seq<u8>,
    key_type: DataTypeRaw,
    keys: Seq<DataInstanceRaw>,
    children: Seq<u32>,
) -> bool {
    let start = node_children_start(bs, key_type);
    &&& children.len() == node_arity(bs)
    &&& keys.len() + 1 == children.len()
    &&& row_decoded(
        bs.subrange(3, PAGE_SIZE as int),
        key_types(key_type, keys.len()),
        keys_as_values(keys),
    )
    &&& forall|j: int|
        0 <= j < children.len() ==> #[trigger] children[j] as nat == be_value(
            bs.subrange(start + 4 * j, start + 4 * j + 4),
        )
}

fn decode_node(page: &[u8], key_type: DataTypeRaw) -> (r: Result<
    (Vec<DataInstanceRaw>, Vec<u32>),
    String,
>)
    requires
        page@.len() == PAGE_SIZE,
    ensures
        r is Ok <==> node_decodable(page@, key_type),
        r matches Ok((keys, children)) ==> node_decoded(page@, key_type, keys@, children@),
{
    let arity_bytes = &page[1..3];
    let arity = read_be(arity_bytes, 2) as usize;
    proof {
        assert(arity_bytes@ =~= page@.subrange(1, 3));
        assert(arity_bytes@.take(2) =~= arity_bytes@);
        crate::encoding::lemma_be_value_bound(arity_bytes@);
        lemma_pow256_values();
    }
    if arity == 0 {
        return Err(String::from_str("A node must have at least one child"));
    }
    let mut key_types_vec: Vec<DataType> = Vec::new();
    let mut i: usize = 0;
    while i < arity - 1
        invariant
            i <= arity - 1,
            key_types_vec@ == key_types(key_type, i as nat),
        decreases arity - 1 - i,
    {
        key_types_vec.push(DataType { raw_type: key_type, is_nullable: false });
        proof {
            assert(key_types_vec@ =~= key_types(key_type, (i + 1) as nat));
        }
        i += 1;
    }
    let body = &page[3..PAGE_SIZE];
    proof {
        assert(body@ =~= page@.subrange(3, PAGE_SIZE as int));
    }
    let (key_row, after_keys) = match Row::try_decode_assume(body, key_types_vec.as_slice()) {
        Ok(ok) => ok,
        Err(e) => return Err(e),
    };
    let ghost kt = key_types_vec@;
    let ghost decoded = key_row.0@;
    let mut remaining = key_row.0;
    let mut keys: Vec<DataInstanceRaw> = Vec::new();
    while remaining.len() > 0
        invariant
            kt == key_types(key_type, (arity - 1) as nat),
            decoded.len() == kt.len(),
            row_decoded(body@, kt, decoded),
            keys@.len() + remaining@.len() == decoded.len(),
            remaining@ == decoded.skip(keys@.len() as int),
            forall|j: int| 0 <= j < keys@.len() ==> DataInstance::Direct(#[trigger] keys@[j]) == decoded[j],
        decreases remaining@.len(),
    {
        let ghost k = keys@.len() as int;
        proof {
            assert(kt[k].is_nullable == false);
            assert(crate::encoding::instance_decoded(
                body@.skip(row_offset(body@, kt, k as nat) as int),
                kt[k],
                decoded[k],
            ));
            assert(remaining@[0] == decoded[k]);
        }
        let value = remaining.remove(0);
        proof {
            assert(remaining@ =~= decoded.skip(k + 1));
        }
        match value {
            DataInstance::Direct(v) => keys.push(v),
            _ => {
                return Err(String::from_str("A key must be a plain value"));
            },
        }
    }
    proof {
        assert(keys_as_values(keys@) =~= decoded);
    }
    let start = PAGE_SIZE - after_keys.len();
    proof {
        assert(start as int == node_children_start(page@, key_type));
    }
    if after_keys.len() < 4 * arity {
        return Err(String::from_str("Node children overflow the page"));
    }
    let mut children: Vec<u32> = Vec::new();
    let mut j: usize = 0;
    while j < arity
        invariant
            page@.len() == PAGE_SIZE,
            start + 4 * arity <= PAGE_SIZE,
            j <= arity,
            children@.len() == j,
            forall|m: int|
                0 <= m < j ==> #[trigger] children@[m] as nat == be_value(
                    page@.subrange(start + 4 * m, start + 4 * m + 4),
                ),
        decreases arity - j,
    {
        let bytes = &page[start + 4 * j..start + 4 * j + 4];
        let child = read_be(bytes, 4);
        proof {
            assert(bytes@ =~= page@.subrange(start + 4 * j, start + 4 * j + 4));
            assert(bytes@.take(4) =~= bytes@);
            crate::encoding::lemma_be_value_bound(bytes@);
            lemma_pow256_values();
        }
        children.push(child as u32);
        j += 1;
    }
    Ok((keys, children))
}

/// The type of the first primary-key column, if there is one.
pub open spec fn primary_key_type_in(columns: Seq<ColumnDefinition>) -> Option<DataTypeRaw>
    decreases columns.len(),
{
    if columns.len() == 0 {
        None
    } else if columns[0].primary_key {
        Some(columns[0].data_type.raw_type)
    } else {
        primary_key_type_in(columns.drop_first())
    }
}

proof fn lemma_primary_key_type(columns: Seq<ColumnDefinition>, i: int)
    requires
        0 <= i <= columns.len(),
        forall|j: int| 0 <= j < i ==> !(#[trigger] columns[j]).primary_key,
    ensures
        i < columns.len() && columns[i].primary_key ==> primary_key_type_in(columns) == Some(
            columns[i].data_type.raw_type,
        ),
        i == columns.len() ==> primary_key_type_in(columns) is None,
    decreases i,
{
    if i > 0 {
        assert(!columns[0].primary_key);
        let rest = columns.drop_first();
        assert forall|j: int| 0 <= j < i - 1 implies !(#[trigger] rest[j]).primary_key by {
            assert(rest[j] == columns[j + 1]);
        }
        lemma_primary_key_type(rest, i - 1);
        if i < columns.len() {
            assert(rest[i - 1] == columns[i]);
        }
    }
}

/// The first page of `bs` can be read as a page of the table: a meta page of
/// the current layout, a node of a table with a primary key, or a leaf.
pub open spec fn page_decodable(bs: Seq<u8>, table: TableDefinition) -> bool {
    let page = bs.take(PAGE_SIZE as int);
    &&& bs.len() >= PAGE_SIZE
    &&& {
        ||| page[0] == META_MARKER && page[1] == LATEST_LAYOUT_VERSION
        ||| page[0] == NODE_MARKER && (primary_key_type_in(table.columns@) matches Some(t)
            && node_decodable(page, t))
        ||| page[0] == LEAF_MARKER && leaf_decodable(page, column_types(table))
    }
}

/// `p` is what the page `bs` holds, read with the table's schema.
pub open spec fn page_decoded(bs: Seq<u8>, table: TableDefinition, p: Page) -> bool {
    match p {
        Page::Meta { layout_version, b_tree_root_page_index } => bs[0] == META_MARKER
            && layout_version == bs[1] && b_tree_root_page_index as nat == be_value(
            bs.subrange(2, 6),
        ),
        Page::BTreeNode { primary_keys, child_page_indexes } => bs[0] == NODE_MARKER && (
        primary_key_type_in(table.columns@) matches Some(t) && node_decoded(
            bs,
            t,
            primary_keys@,
            child_page_indexes@,
        )),
        Page::BTreeLeaf { next_leaf_page_index, rows } => bs[0] == LEAF_MARKER && leaf_decoded(
            bs,
            column_types(table),
            next_leaf_page_index,
            rows@,
        ),
    }
}

impl Page {
    /// Reads the page at the front of `blob` with the table's schema; returns it
    /// with the bytes after the page.
    pub fn try_decode_assume<'b>(blob: &'b [u8], assumption: &TableDefinition) -> (r: Result<
        (Page, &'b [u8]),
        String,
    >)
        ensures
            r is Ok <==> page_decodable(blob@, *assumption),
            blob@.len() >= PAGE_SIZE && blob@[0] != META_MARKER && blob@[0] != NODE_MARKER && blob@[0]
                != LEAF_MARKER ==> (r matches Err(e) && e@ == marker_message(blob@[0])),
            r matches Ok((p, rest)) ==> page_decoded(blob@.take(PAGE_SIZE as int), *assumption, p)
                && rest@ == blob@.skip(PAGE_SIZE as int),
    {
        let n = blob.len();
        if n < PAGE_SIZE {
            return Err(String::from_str("A page is 8192 bytes long"));
        }
        let page = &blob[0..PAGE_SIZE];
        let next_page = &blob[PAGE_SIZE..n];
        proof {
            assert(page@ =~= blob@.take(PAGE_SIZE as int));
            assert(next_page@ =~= blob@.skip(PAGE_SIZE as int));
        }
        let marker = page[0];
        if marker == META_MARKER {
            let layout_version = page[1];
            if layout_version != LATEST_LAYOUT_VERSION {
                return Err(String::from_str("Unsupported layout version"));
            }
            let root_bytes = &page[2..6];
            let root = read_be(root_bytes, 4);
            proof {
                assert(root_bytes@ =~= page@.subrange(2, 6));
                assert(root_bytes@.take(4) =~= root_bytes@);
                crate::encoding::lemma_be_value_bound(root_bytes@);
                lemma_pow256_values();
            }
            Ok(
                (
                    Page::Meta { layout_version, b_tree_root_page_index: root as u32 },
                    next_page,
                ),
            )
        } else if marker == NODE_MARKER {
            let key_type = match assumption.primary_key_index() {
                Some(i) => {
                    proof {
                        lemma_primary_key_type(assumption.columns@, i as int);
                    }
                    assumption.columns[i].data_type.raw_type
                },
                None => {
                    proof {
                        lemma_primary_key_type(assumption.columns@, assumption.columns@.len() as int);
                    }
                    return Err(String::from_str("A table without a primary key has no nodes"));
                },
            };
            match decode_node(page, key_type) {
                Ok((primary_keys, child_page_indexes)) => Ok(
                    (Page::BTreeNode { primary_keys, child_page_indexes }, next_page),
                ),
                Err(e) => Err(e),
            }
        } else if marker == LEAF_MARKER {
            let types = column_types_of(assumption);
            match decode_leaf(page, &types) {
                Ok((next_leaf_page_index, rows)) => Ok(
                    (Page::BTreeLeaf { next_leaf_page_index, rows }, next_page),
                ),
                Err(e) => Err(e),
            }
        } else {
            Err(marker_error(marker))
        }
    }
}

// ---------------------------------------------------------------------------
// Round trip

/// The page can be read back with the table's schema: a meta page of the
/// current layout; a node whose keys are valid values of the table's key type;
/// a leaf whose rows are valid rows of the table.
pub open spec fn page_consistent(p: Page, table: TableDefinition) -> bool {
    match p {
        Page::Meta { layout_version, .. } => layout_version == LATEST_LAYOUT_VERSION,
        Page::BTreeNode { primary_keys, .. } => primary_key_type_in(table.columns@) matches Some(t)
            && forall|i: int|
            0 <= i < primary_keys@.len() ==> raw_type_of(#[trigger] primary_keys@[i]) == t
                && raw_valid(primary_keys@[i]),
        Page::BTreeLeaf { rows, .. } => forall|i: int|
            0 <= i < rows@.len() ==> row_conforms(#[trigger] rows@[i].0@, column_types(table)),
    }
}

/// Two pages hold the same fields, strings compared by their characters.
pub open spec fn page_same(a: Page, b: Page) -> bool {
    match (a, b) {
        (
            Page::Meta { layout_version: v1, b_tree_root_page_index: r1 },
            Page::Meta { layout_version: v2, b_tree_root_page_index: r2 },
        ) => v1 == v2 && r1 == r2,
        (
            Page::BTreeNode { primary_keys: k1, child_page_indexes: c1 },
            Page::BTreeNode { primary_keys: k2, child_page_indexes: c2 },
        ) => c1@ == c2@ && k1@.len() == k2@.len() && forall|i: int|
            0 <= i < k1@.len() ==> raw_same(#[trigger] k1@[i], k2@[i]),
        (
            Page::BTreeLeaf { next_leaf_page_index: n1, rows: r1 },
            Page::BTreeLeaf { next_leaf_page_index: n2, rows: r2 },
        ) => n1 == n2 && r1@.len() == r2@.len() && forall|i: int|
            0 <= i < r1@.len() ==> (#[trigger] r1@[i]).0@.len() == r2@[i].0@.len() && forall|j: int|
                0 <= j < r1@[i].0@.len() ==> instance_same(#[trigger] r1@[i].0@[j], r2@[i].0@[j]),
        _ => false,
    }
}

proof fn lemma_be_small_round_trip(v: nat, n: nat)
    requires
        n == 2 || n == 4,
        v < pow256(n),
    ensures
        be_value(be_bytes(v, n)) == v,
{
    lemma_be_round_trip(v, n);
}

proof fn lemma_leaf_round_trip(bs: Seq<u8>, next: u32, rows: Seq<Row>, ts: Seq<DataType>)
    requires
        leaf_fits(rows),
        leaf_bytes(bs, next, rows),
        forall|i: int| 0 <= i < rows.len() ==> row_conforms(#[trigger] rows[i].0@, ts),
    ensures
        leaf_decodable(bs, ts),
        forall|next2: u32, rows2: Seq<Row>|
            #[trigger] leaf_decoded(bs, ts, next2, rows2) ==> next2 == next && rows2.len()
                == rows.len() && forall|i: int|
                0 <= i < rows.len() ==> (#[trigger] rows2[i]).0@.len() == rows[i].0@.len()
                    && forall|j: int|
                    0 <= j < rows[i].0@.len() ==> instance_same(#[trigger] rows2[i].0@[j], rows[i].0@[j]),
{
    let n = rows.len() as int;
    lemma_pow256_values();
    lemma_be_small_round_trip(next as nat, 4);
    lemma_be_small_round_trip(n as nat, 2);
    assert(leaf_count(bs) == n);
    assert forall|i: int| 0 <= i < n implies {
        &&& slot_at(bs, i) == row_start(rows, i)
        &&& 6 < row_start(rows, i) <= PAGE_SIZE
        &&& bs.subrange(row_start(rows, i), PAGE_SIZE as int) == row_encoding(rows[i].0@) + bs.subrange(
            row_start(rows, i) + row_encoding(rows[i].0@).len(),
            PAGE_SIZE as int,
        )
    } by {
        lemma_rows_len_grows(rows, i + 1, n);
        lemma_rows_len_grows(rows, 0, i);
        assert(rows_len(rows, i + 1) == rows_len(rows, i) + row_encoding(rows[i].0@).len());
        let o = row_start(rows, i);
        lemma_be_small_round_trip(o as nat, 2);
        let len = row_encoding(rows[i].0@).len();
        assert(bs.subrange(o, o + len) == row_encoding(rows[i].0@));
        assert(bs.subrange(o, PAGE_SIZE as int) =~= bs.subrange(o, o + len) + bs.subrange(
            o + len,
            PAGE_SIZE as int,
        ));
    }
    assert forall|i: int| 0 <= i < leaf_count(bs) implies 6 < #[trigger] slot_at(bs, i) <= PAGE_SIZE
        && row_decodable_upto(
        bs.subrange(slot_at(bs, i) as int, PAGE_SIZE as int),
        ts,
        ts.len(),
    ) by {
        let o = row_start(rows, i);
        let len = row_encoding(rows[i].0@).len();
        lemma_row_round_trip(rows[i].0@, ts, bs.subrange(o + len, PAGE_SIZE as int));
    }
    assert forall|next2: u32, rows2: Seq<Row>| #[trigger] leaf_decoded(bs, ts, next2, rows2) implies next2
        == next && rows2.len() == rows.len() && forall|i: int|
        0 <= i < rows.len() ==> (#[trigger] rows2[i]).0@.len() == rows[i].0@.len() && forall|j: int|
            0 <= j < rows[i].0@.len() ==> instance_same(#[trigger] rows2[i].0@[j], rows[i].0@[j]) by {
        assert forall|i: int| 0 <= i < rows.len() implies (#[trigger] rows2[i]).0@.len()
            == rows[i].0@.len() && forall|j: int|
            0 <= j < rows[i].0@.len() ==> instance_same(#[trigger] rows2[i].0@[j], rows[i].0@[j]) by {
            let o = row_start(rows, i);
            let len = row_encoding(rows[i].0@).len();
            lemma_row_round_trip(rows[i].0@, ts, bs.subrange(o + len, PAGE_SIZE as int));
            assert(row_decoded(
                bs.subrange(slot_at(bs, i) as int, PAGE_SIZE as int),
                ts,
                rows2[i].0@,
            ));
        }
    }
}

/// A page that fits reads back as itself: its serialization decodes, under a
/// schema consistent with it, to the same page.
pub proof fn lemma_page_round_trip(p: Page, bs: Seq<u8>, table: TableDefinition)
    requires
        page_fits(p),
        page_bytes(bs, p),
        page_consistent(p, table),
    ensures
        bs.len() == PAGE_SIZE,
        page_decodable(bs, table),
        forall|q: Page| #[trigger] page_decoded(bs, table, q) ==> page_same(q, p),
{
    assert(bs.take(PAGE_SIZE as int) =~= bs);
    lemma_pow256_values();
    match p {
        Page::Meta { layout_version, b_tree_root_page_index } => {
            lemma_be_small_round_trip(b_tree_root_page_index as nat, 4);
        },
        Page::BTreeNode { primary_keys, child_page_indexes } => {
            let t = primary_key_type_in(table.columns@)->0;
            lemma_node_round_trip(bs, primary_keys@, child_page_indexes@, t);
            assert forall|q: Page| #[trigger] page_decoded(bs, table, q) implies page_same(q, p) by {
                if let Page::BTreeNode { primary_keys: k2, child_page_indexes: c2 } = q {
                    assert(node_decoded(bs, t, k2@, c2@));
                }
            }
        },
        Page::BTreeLeaf { next_leaf_page_index, rows } => {
            lemma_leaf_round_trip(bs, next_leaf_page_index, rows@, column_types(table));
            assert forall|q: Page| #[trigger] page_decoded(bs, table, q) implies page_same(q, p) by {
                if let Page::BTreeLeaf { next_leaf_page_index: n2, rows: r2 } = q {
                    assert(leaf_decoded(bs, column_types(table), n2, r2@));
                }
            }
        },
        _ => {},
    }
}

/// The layout of a leaf that fits: every slot points past the header and the
/// slot directory, and the bodies lie one after another, back to front,
/// without overlapping, inside the page.
pub proof fn lemma_leaf_layout(rows: Seq<Row>)
    requires
        leaf_fits(rows),
    ensures
        forall|i: int|
            0 <= i < rows.len() ==> {
                &&& LEAF_HEADER_SIZE + 2 * rows.len() <= #[trigger] row_start(rows, i)
                &&& row_start(rows, i) > 6
                &&& row_start(rows, i) + row_encoding(rows[i].0@).len() <= PAGE_SIZE
                &&& i > 0 ==> row_start(rows, i) + row_encoding(rows[i].0@).len() == row_start(
                    rows,
                    i - 1,
                )
            },
{
    let n = rows.len() as int;
    assert forall|i: int| 0 <= i < n implies {
        &&& LEAF_HEADER_SIZE + 2 * rows.len() <= #[trigger] row_start(rows, i)
        &&& row_start(rows, i) > 6
        &&& row_start(rows, i) + row_encoding(rows[i].0@).len() <= PAGE_SIZE
        &&& i > 0 ==> row_start(rows, i) + row_encoding(rows[i].0@).len() == row_start(rows, i - 1)
    } by {
        lemma_rows_len_grows(rows, i + 1, n);
        lemma_rows_len_grows(rows, 0, i);
    }
}

proof fn lemma_keys_encoding_as_row(keys: Seq<DataInstanceRaw>)
    ensures
        keys_encoding(keys) == row_encoding(keys_as_values(keys)),
    decreases keys.len(),
{
    if keys.len() > 0 {
        lemma_keys_encoding_as_row(keys.drop_last());
        assert(keys_as_values(keys).drop_last() =~= keys_as_values(keys.drop_last()));
    }
}

proof fn lemma_children_encoding_at(children: Seq<u32>, j: int)
    requires
        0 <= j < children.len(),
    ensures
        children_encoding(children).subrange(4 * j, 4 * j + 4) == be_bytes(children[j] as nat, 4),
    decreases children.len(),
{
    lemma_children_encoding_len(children);
    let last = children.len() - 1;
    lemma_children_encoding_len(children.drop_last());
    lemma_be_bytes_len(children.last() as nat, 4);
    if j < last {
        lemma_children_encoding_at(children.drop_last(), j);
        assert(children_encoding(children).subrange(4 * j, 4 * j + 4) =~= children_encoding(
            children.drop_last(),
        ).subrange(4 * j, 4 * j + 4));
    } else {
        assert(children_encoding(children).subrange(4 * j, 4 * j + 4) =~= be_bytes(
            children.last() as nat,
            4,
        ));
    }
}

proof fn lemma_node_round_trip(bs: Seq<u8>, keys: Seq<DataInstanceRaw>, children: Seq<u32>, t: DataTypeRaw)
    requires
        node_fits(keys, children),
        node_bytes(bs, keys, children),
        forall|i: int| 0 <= i < keys.len() ==> raw_type_of(#[trigger] keys[i]) == t && raw_valid(keys[i]),
    ensures
        node_decodable(bs, t),
        forall|keys2: Seq<DataInstanceRaw>, children2: Seq<u32>|
            #[trigger] node_decoded(bs, t, keys2, children2) ==> children2 == children && keys2.len()
                == keys.len() && forall|i: int| 0 <= i < keys.len() ==> raw_same(#[trigger] keys2[i], keys[i]),
{
    lemma_pow256_values();
    lemma_be_small_round_trip(children.len() as nat, 2);
    lemma_children_encoding_len(children);
    let k = keys_encoding(keys).len() as int;
    let c = children_encoding(children).len() as int;
    let body = bs.subrange(3, PAGE_SIZE as int);
    let kt = key_types(t, keys.len());
    let vs = keys_as_values(keys);
    assert(node_arity(bs) == children.len());
    assert(kt =~= key_types(t, (node_arity(bs) - 1) as nat));
    lemma_keys_encoding_as_row(keys);
    let rest = bs.subrange(3 + k, PAGE_SIZE as int);
    assert(body =~= row_encoding(vs) + rest);
    assert(row_conforms(vs, kt)) by {
        assert forall|i: int| 0 <= i < vs.len() implies crate::components::conforms(#[trigger] vs[i], kt[i])
            && crate::encoding::instance_valid(vs[i]) by {
            assert(vs[i] == DataInstance::Direct(keys[i]));
        }
    }
    lemma_row_round_trip(vs, kt, rest);
    assert(node_children_start(bs, t) == 3 + k);
    assert forall|j: int| 0 <= j < children.len() implies be_value(
        bs.subrange(3 + k + 4 * j, 3 + k + 4 * j + 4),
    ) == #[trigger] children[j] as nat by {
        lemma_children_encoding_at(children, j);
        assert(bs.subrange(3 + k + 4 * j, 3 + k + 4 * j + 4) =~= children_encoding(children).subrange(
            4 * j,
            4 * j + 4,
        ));
        lemma_be_small_round_trip(children[j] as nat, 4);
    }
    assert forall|keys2: Seq<DataInstanceRaw>, children2: Seq<u32>| #[trigger] node_decoded(
        bs,
        t,
        keys2,
        children2,
    ) implies children2 == children && keys2.len() == keys.len() && forall|i: int|
        0 <= i < keys.len() ==> raw_same(#[trigger] keys2[i], keys[i]) by {
        assert(key_types(t, keys2.len()) =~= kt);
        assert(row_decoded(body, kt, keys_as_values(keys2)));
        assert forall|i: int| 0 <= i < keys.len() implies raw_same(#[trigger] keys2[i], keys[i]) by {
            assert(keys_as_values(keys2)[i] == DataInstance::Direct(keys2[i]));
            assert(instance_same(keys_as_values(keys2)[i], vs[i]));
        }
        assert forall|j: int| 0 <= j < children.len() implies children2[j] == children[j] by {
            assert(children2[j] as nat == be_value(bs.subrange(3 + k + 4 * j, 3 + k + 4 * j + 4)));
        }
        assert(children2 =~= children);
    }
}

/// The hexadecimal digit (lower case) for `d`, which is below sixteen.
pub open spec fn hex_digit(d: u8) -> char {
    if d < 10 {
        (('0' as u8) + d) as char
    } else {
        (('a' as u8) + d - 10) as char
    }
}

fn hex_digit_of(d: u8) -> (r: char)
    requires
        d < 16,
    ensures
        r == hex_digit(d),
{
    if d < 10 {
        (('0' as u8) + d) as char
    } else {
        (('a' as u8) + d - 10) as char
    }
}

/// The message for a page whose first byte is not a known marker.
pub open spec fn marker_message(marker: u8) -> Seq<char> {
    "Invalid page type marker byte 0x"@ + seq![hex_digit(marker / 16), hex_digit(marker % 16)]
        + " - recognized values are: 0x00, 0x20, 0x21"@
}

fn marker_error(marker: u8) -> (r: String)
    ensures
        r@ == marker_message(marker),
{
    let digits = vec![hex_digit_of(marker / 16), hex_digit_of(marker % 16)];
    let hex = crate::text::string_from_chars(&digits);
    proof {
        assert(digits@ =~= seq![hex_digit(marker / 16), hex_digit(marker % 16)]);
    }
    String::from_str("Invalid page type marker byte 0x").concat(hex.as_str()).concat(
        " - recognized values are: 0x00, 0x20, 0x21",
    )
}

} // verus!
