//! The B+ tree over a table's pages: key order, routing, and insertion with
//! splits. The pages are held in memory, indexed as in the table file.

use crate::components::{raw_type_of, ColumnDefinition, DataInstance, DataInstanceRaw, TableDefinition};
use crate::encoding::{instance_encodable, row_encodable, row_encoding, Row};
use crate::encoding::raw_encodable;
use crate::paging::{keys_encoding, leaf_fits, node_fits, page_fits, rows_len, Page, LEAF_HEADER_SIZE, PAGE_SIZE};
use crate::tokenizer::DataTypeRaw;
use vstd::prelude::*;
use vstd::utf8::*;

verus! {

// ---------------------------------------------------------------------------
// Key order

/// Lexicographic order of byte strings.
pub open spec fn bytes_lt(a: Seq<u8>, b: Seq<u8>) -> bool
    decreases a.len(),
{
    if a.len() == 0 {
        b.len() > 0
    } else if b.len() == 0 {
        false
    } else if a[0] != b[0] {
        a[0] < b[0]
    } else {
        bytes_lt(a.drop_first(), b.drop_first())
    }
}

/// Rank of a type, to order keys of different types (which one table never mixes).
pub open spec fn type_rank(t: DataTypeRaw) -> nat {
    match t {
        DataTypeRaw::UInt8 => 0,
        DataTypeRaw::UInt16 => 1,
        DataTypeRaw::UInt32 => 2,
        DataTypeRaw::UInt64 => 3,
        DataTypeRaw::UInt128 => 4,
        DataTypeRaw::Bool => 5,
        DataTypeRaw::Timestamp => 6,
        DataTypeRaw::Uuid => 7,
        DataTypeRaw::String => 8,
    }
}

/// The order of primary keys: numbers and timestamps by value, UUIDs by their
/// big-endian bytes (that is, as 128-bit integers), strings by their UTF-8
/// bytes, `false` before `true`.
pub open spec fn key_lt(a: DataInstanceRaw, b: DataInstanceRaw) -> bool {
    match (a, b) {
        (DataInstanceRaw::UInt8(x), DataInstanceRaw::UInt8(y)) => x < y,
        (DataInstanceRaw::UInt16(x), DataInstanceRaw::UInt16(y)) => x < y,
        (DataInstanceRaw::UInt32(x), DataInstanceRaw::UInt32(y)) => x < y,
        (DataInstanceRaw::UInt64(x), DataInstanceRaw::UInt64(y)) => x < y,
        (DataInstanceRaw::UInt128(x), DataInstanceRaw::UInt128(y)) => x < y,
        (DataInstanceRaw::Bool(x), DataInstanceRaw::Bool(y)) => !x && y,
        (DataInstanceRaw::Timestamp(x), DataInstanceRaw::Timestamp(y)) => x < y,
        (DataInstanceRaw::Uuid(x), DataInstanceRaw::Uuid(y)) => x < y,
        (DataInstanceRaw::String(x), DataInstanceRaw::String(y)) => bytes_lt(
            encode_utf8(x@),
            encode_utf8(y@),
        ),
        _ => type_rank(raw_type_of(a)) < type_rank(raw_type_of(b)),
    }
}

/// Two keys are equal, strings compared by their characters.
pub open spec fn key_eq(a: DataInstanceRaw, b: DataInstanceRaw) -> bool {
    match (a, b) {
        (DataInstanceRaw::String(x), DataInstanceRaw::String(y)) => x@ == y@,
        _ => a == b,
    }
}

proof fn lemma_bytes_lt_common_prefix(a: Seq<u8>, b: Seq<u8>, i: int)
    requires
        0 <= i <= a.len(),
        i <= b.len(),
        a.take(i) == b.take(i),
    ensures
        bytes_lt(a, b) == bytes_lt(a.skip(i), b.skip(i)),
    decreases i,
{
    if i > 0 {
        assert(a[0] == a.take(i)[0]);
        assert(b[0] == b.take(i)[0]);
        assert(a.drop_first().take(i - 1) =~= a.take(i).drop_first());
        assert(b.drop_first().take(i - 1) =~= b.take(i).drop_first());
        lemma_bytes_lt_common_prefix(a.drop_first(), b.drop_first(), i - 1);
        assert(a.drop_first().skip(i - 1) =~= a.skip(i));
        assert(b.drop_first().skip(i - 1) =~= b.skip(i));
    } else {
        assert(a.skip(0) =~= a);
        assert(b.skip(0) =~= b);
    }
}

fn compare_bytes(a: &[u8], b: &[u8]) -> (r: i8)
    ensures
        r == -1 <==> bytes_lt(a@, b@),
        r == 1 <==> bytes_lt(b@, a@),
        r == 0 <==> a@ == b@,
        -1 <= r <= 1,
{
    let n = a.len();
    let m = b.len();
    let mut i: usize = 0;
    while i < n && i < m
        invariant
            n == a@.len(),
            m == b@.len(),
            i <= n,
            i <= m,
            a@.take(i as int) == b@.take(i as int),
        decreases n - i,
    {
        if a[i] != b[i] {
            proof {
                lemma_bytes_lt_common_prefix(a@, b@, i as int);
                lemma_bytes_lt_common_prefix(b@, a@, i as int);
                assert(a@.skip(i as int)[0] == a@[i as int]);
                assert(b@.skip(i as int)[0] == b@[i as int]);
                assert(a@ != b@);
            }
            if a[i] < b[i] {
                return -1;
            } else {
                return 1;
            }
        }
        proof {
            assert(a@.take(i + 1) =~= a@.take(i as int).push(a@[i as int]));
            assert(b@.take(i + 1) =~= b@.take(i as int).push(b@[i as int]));
        }
        i += 1;
    }
    proof {
        lemma_bytes_lt_common_prefix(a@, b@, i as int);
        lemma_bytes_lt_common_prefix(b@, a@, i as int);
    }
    if n < m {
        proof {
            assert(a@.skip(i as int).len() == 0);
            assert(a@ != b@);
        }
        -1
    } else if m < n {
        proof {
            assert(b@.skip(i as int).len() == 0);
            assert(a@ != b@);
        }
        1
    } else {
        proof {
            assert(a@ =~= a@.take(i as int));
            assert(b@ =~= b@.take(i as int));
            assert(a@.skip(i as int).len() == 0);
            assert(b@.skip(i as int).len() == 0);
        }
        0
    }
}

fn type_rank_of(v: &DataInstanceRaw) -> (r: u8)
    ensures
        r as nat == type_rank(raw_type_of(*v)),
{
    match v {
        DataInstanceRaw::UInt8(_) => 0,
        DataInstanceRaw::UInt16(_) => 1,
        DataInstanceRaw::UInt32(_) => 2,
        DataInstanceRaw::UInt64(_) => 3,
        DataInstanceRaw::UInt128(_) => 4,
        DataInstanceRaw::Bool(_) => 5,
        DataInstanceRaw::Timestamp(_) => 6,
        DataInstanceRaw::Uuid(_) => 7,
        DataInstanceRaw::String(_) => 8,
    }
}

/// Compares two keys: -1, 0 or 1 as `a` is before, equal to or after `b`.
pub fn compare_keys(a: &DataInstanceRaw, b: &DataInstanceRaw) -> (r: i8)
    ensures
        r == -1 <==> key_lt(*a, *b),
        r == 1 <==> key_lt(*b, *a),
        r == 0 <==> key_eq(*a, *b),
        -1 <= r <= 1,
{
    match (a, b) {
        (DataInstanceRaw::UInt8(x), DataInstanceRaw::UInt8(y)) => if *x < *y { -1 } else if *x > *y { 1 } else { 0 },
        (DataInstanceRaw::UInt16(x), DataInstanceRaw::UInt16(y)) => if *x < *y { -1 } else if *x > *y { 1 } else { 0 },
        (DataInstanceRaw::UInt32(x), DataInstanceRaw::UInt32(y)) => if *x < *y { -1 } else if *x > *y { 1 } else { 0 },
        (DataInstanceRaw::UInt64(x), DataInstanceRaw::UInt64(y)) => if *x < *y { -1 } else if *x > *y { 1 } else { 0 },
        (DataInstanceRaw::UInt128(x), DataInstanceRaw::UInt128(y)) => if *x < *y { -1 } else if *x > *y { 1 } else { 0 },
        (DataInstanceRaw::Bool(x), DataInstanceRaw::Bool(y)) => if !*x && *y { -1 } else if *x && !*y { 1 } else { 0 },
        (DataInstanceRaw::Timestamp(x), DataInstanceRaw::Timestamp(y)) => if *x < *y { -1 } else if *x > *y { 1 } else { 0 },
        (DataInstanceRaw::Uuid(x), DataInstanceRaw::Uuid(y)) => if *x < *y { -1 } else if *x > *y { 1 } else { 0 },
        (DataInstanceRaw::String(x), DataInstanceRaw::String(y)) => {
            let r = compare_bytes(x.as_str().as_bytes(), y.as_str().as_bytes());
            proof {
                if encode_utf8(x@) == encode_utf8(y@) {
                    encode_utf8_decode_utf8(x@);
                    encode_utf8_decode_utf8(y@);
                }
            }
            r
        },
        _ => {
            let ra = type_rank_of(a);
            let rb = type_rank_of(b);
            if ra < rb { -1 } else { 1 }
        },
    }
}

// ---------------------------------------------------------------------------
// Routing and leaves

/// Why an insertion failed.
#[derive(Debug, PartialEq, Eq, Clone, Copy, Structural)]
pub enum BTreeError {
    /// The table has no primary-key column.
    MissingPrimaryKey,
    /// The row has no plain value in the primary-key column.
    InvalidRow,
    /// A row with the same primary key is already stored.
    DuplicateKey,
    /// The row cannot fit in a leaf.
    RowTooLarge,
    /// The file would need more pages than a page index can address.
    TableFull,
    /// The pages do not form a tree.
    Corrupted,
}

/// The child to descend to for `key`: the first `i` with `key < keys[i]`, or
/// the last child if there is none.
pub fn child_index_for_key(keys: &Vec<DataInstanceRaw>, key: &DataInstanceRaw) -> (r: usize)
    ensures
        r <= keys@.len(),
        forall|j: int| 0 <= j < r ==> !key_lt(*key, #[trigger] keys@[j]),
        r < keys@.len() ==> key_lt(*key, keys@[r as int]),
        r == child_slot_from(keys@, *key, 0),
{
    let mut i: usize = 0;
    while i < keys.len()
        invariant
            i <= keys@.len(),
            forall|j: int| 0 <= j < i ==> !key_lt(*key, #[trigger] keys@[j]),
            child_slot_from(keys@, *key, 0) == child_slot_from(keys@, *key, i as int),
        decreases keys@.len() - i,
    {
        if compare_keys(key, &keys[i]) == -1 {
            return i;
        }
        i += 1;
    }
    i
}

/// The first child at or after `i` whose key is greater than `key`, or the
/// last child.
pub open spec fn child_slot_from(keys: Seq<DataInstanceRaw>, key: DataInstanceRaw, i: int) -> int
    decreases keys.len() - i,
{
    if i < 0 || i >= keys.len() {
        keys.len() as int
    } else if key_lt(key, keys[i]) {
        i
    } else {
        child_slot_from(keys, key, i + 1)
    }
}

/// The leaf that `key` routes to from page `cur`, within `fuel` steps.
pub open spec fn routed_leaf(pages: Seq<Page>, cur: int, key: DataInstanceRaw, fuel: nat) -> Option<int>
    decreases fuel,
{
    if fuel == 0 || !(0 <= cur < pages.len()) {
        None
    } else {
        match pages[cur] {
            Page::BTreeNode { primary_keys, child_page_indexes } => {
                let slot = child_slot_from(primary_keys@, key, 0);
                if 0 <= slot < child_page_indexes@.len() {
                    routed_leaf(pages, child_page_indexes@[slot] as int, key, (fuel - 1) as nat)
                } else {
                    None
                }
            },
            Page::BTreeLeaf { .. } => Some(cur),
            Page::Meta { .. } => None,
        }
    }
}

/// No row of leaf `l` has a key equal to `key`.
pub open spec fn no_row_with_key(pages: Seq<Page>, l: int, pk: int, key: DataInstanceRaw) -> bool {
    forall|j: int|
        #[trigger] leaf_row_at(pages, l, j) is Some ==> !(row_key(leaf_row_at(pages, l, j)->0, pk) matches Some(
            k,
        ) && key_eq(k, key))
}

/// The primary key of a row: its plain value in the key column.
pub open spec fn row_key(row: Row, pk: int) -> Option<DataInstanceRaw> {
    if 0 <= pk < row.0@.len() {
        match row.0@[pk] {
            DataInstance::Direct(k) => Some(k),
            _ => None,
        }
    } else {
        None
    }
}

/// A copy of a value.
pub fn copy_raw(v: &DataInstanceRaw) -> (r: DataInstanceRaw)
    ensures
        r == *v,
{
    match v {
        DataInstanceRaw::UInt8(x) => DataInstanceRaw::UInt8(*x),
        DataInstanceRaw::UInt16(x) => DataInstanceRaw::UInt16(*x),
        DataInstanceRaw::UInt32(x) => DataInstanceRaw::UInt32(*x),
        DataInstanceRaw::UInt64(x) => DataInstanceRaw::UInt64(*x),
        DataInstanceRaw::UInt128(x) => DataInstanceRaw::UInt128(*x),
        DataInstanceRaw::Bool(x) => DataInstanceRaw::Bool(*x),
        DataInstanceRaw::Timestamp(x) => DataInstanceRaw::Timestamp(*x),
        DataInstanceRaw::Uuid(x) => DataInstanceRaw::Uuid(*x),
        DataInstanceRaw::String(x) => DataInstanceRaw::String(x.clone()),
    }
}

/// The primary key of a row, copied.
pub fn key_of_row(row: &Row, pk: usize) -> (r: Option<DataInstanceRaw>)
    ensures
        r == row_key(*row, pk as int),
{
    if pk >= row.0.len() {
        return None;
    }
    match &row.0[pk] {
        DataInstance::Direct(k) => Some(copy_raw(k)),
        _ => None,
    }
}

/// Where a row with `key` goes among a leaf's rows: after every row with a
/// smaller key, before the first with a greater one. A row with an equal key,
/// or one with no key, is an error.
pub fn leaf_insert_position(rows: &Vec<Row>, pk: usize, key: &DataInstanceRaw) -> (r: Result<
    usize,
    BTreeError,
>)
    ensures
        r matches Ok(p) ==> p <= rows@.len() && (forall|j: int|
            0 <= j < p ==> (row_key(#[trigger] rows@[j], pk as int) matches Some(k) && key_lt(
                k,
                *key,
            ))) && (p < rows@.len() ==> (row_key(rows@[p as int], pk as int) matches Some(k)
            && key_lt(*key, k))),
        r == Err::<usize, BTreeError>(BTreeError::DuplicateKey) ==> exists|j: int|
            0 <= j < rows@.len() && (row_key(#[trigger] rows@[j], pk as int) matches Some(k)
                && key_eq(k, *key)),
        r == Err::<usize, BTreeError>(BTreeError::InvalidRow) ==> exists|j: int|
            0 <= j < rows@.len() && row_key(#[trigger] rows@[j], pk as int) is None,
        r is Err ==> r == Err::<usize, BTreeError>(BTreeError::DuplicateKey) || r == Err::<
            usize,
            BTreeError,
        >(BTreeError::InvalidRow),
{
    let mut i: usize = 0;
    while i < rows.len()
        invariant
            i <= rows@.len(),
            forall|j: int|
                0 <= j < i ==> (row_key(#[trigger] rows@[j], pk as int) matches Some(k) && key_lt(
                    k,
                    *key,
                )),
        decreases rows@.len() - i,
    {
        let existing = match key_of_row(&rows[i], pk) {
            Some(k) => k,
            None => return Err(BTreeError::InvalidRow),
        };
        let c = compare_keys(key, &existing);
        if c == 0 {
            proof {
                assert(key_eq(existing, *key)) by {
                    match (existing, *key) {
                        (DataInstanceRaw::String(x), DataInstanceRaw::String(y)) => {},
                        _ => {},
                    }
                }
            }
            return Err(BTreeError::DuplicateKey);
        }
        if c == -1 {
            return Ok(i);
        }
        i += 1;
    }
    Ok(i)
}

fn raw_fits(v: &DataInstanceRaw) -> (r: bool)
    ensures
        r == crate::encoding::raw_encodable(*v),
{
    match v {
        DataInstanceRaw::String(s) => s.as_str().as_bytes().len() <= 0xffff,
        _ => true,
    }
}

fn instance_fits(d: &DataInstance) -> (r: bool)
    ensures
        r == instance_encodable(*d),
{
    match d {
        DataInstance::Direct(v) => raw_fits(v),
        DataInstance::Nullable(v) => raw_fits(v),
        DataInstance::Null => true,
    }
}

/// Bytes that a row takes, or `None` for a row with a string too long to store.
pub fn row_size(row: &Row) -> (r: Option<usize>)
    ensures
        r matches Some(n) ==> row_encodable(row.0@) && n == row_encoding(row.0@).len(),
        r is None ==> !row_encodable(row.0@) || row_encoding(row.0@).len() > PAGE_SIZE,
{
    let mut total: usize = 0;
    let mut i: usize = 0;
    while i < row.0.len()
        invariant
            i <= row.0@.len(),
            total <= PAGE_SIZE,
            forall|j: int| 0 <= j < i ==> instance_encodable(#[trigger] row.0@[j]),
            total == row_encoding(row.0@.take(i as int)).len(),
        decreases row.0@.len() - i,
    {
        if !instance_fits(&row.0[i]) {
            return None;
        }
        proof {
            assert(row.0@.take(i + 1).drop_last() =~= row.0@.take(i as int));
            crate::encoding::lemma_row_encoding_prefix(row.0@, i + 1);
            crate::encoding::lemma_row_encoding_prefix(row.0@, i as int);
        }
        let size = row.0[i].encoded_size();
        if size > PAGE_SIZE - total {
            proof {
                crate::encoding::lemma_row_encoding_prefix(row.0@, i + 1);
            }
            return None;
        }
        total = total + size;
        i += 1;
    }
    proof {
        assert(row.0@.take(i as int) =~= row.0@);
    }
    Some(total)
}

/// Whether the rows fit in one leaf.
pub fn rows_fit_in_leaf(rows: &Vec<Row>) -> (r: bool)
    ensures
        r == leaf_fits(rows@),
{
    let n = rows.len();
    if n > 0xffff || 2 * n > PAGE_SIZE - LEAF_HEADER_SIZE {
        return false;
    }
    let mut total: usize = LEAF_HEADER_SIZE + 2 * n;
    let mut i: usize = 0;
    while i < n
        invariant
            n == rows@.len(),
            n <= 0xffff,
            i <= n,
            total == LEAF_HEADER_SIZE + 2 * n + rows_len(rows@, i as int),
            total <= PAGE_SIZE,
            forall|j: int| 0 <= j < i ==> row_encodable(#[trigger] rows@[j].0@),
        decreases n - i,
    {
        match row_size(&rows[i]) {
            Some(size) => {
                if size > PAGE_SIZE - total {
                    proof {
                        lemma_rows_len_monotone(rows@, i + 1, n as int);
                    }
                    return false;
                }
                total = total + size;
            },
            None => {
                proof {
                    if row_encodable(rows@[i as int].0@) {
                        lemma_rows_len_monotone(rows@, i + 1, n as int);
                    }
                }
                return false;
            },
        }
        i += 1;
    }
    true
}

proof fn lemma_rows_len_monotone(rows: Seq<Row>, a: int, b: int)
    requires
        0 <= a <= b,
    ensures
        rows_len(rows, a) <= rows_len(rows, b),
    decreases b - a,
{
    if a < b {
        lemma_rows_len_monotone(rows, a, b - 1);
    }
}

// ---------------------------------------------------------------------------
// The tree

/// The links of a page stay inside a file of `n` pages: a node has one more
/// child than keys, all of them pages after the meta page; a leaf's next leaf
/// is a page of the file (0 for none).
pub open spec fn page_links_ok(p: Page, n: nat) -> bool {
    match p {
        Page::Meta { .. } => false,
        Page::BTreeNode { primary_keys, child_page_indexes } => child_page_indexes@.len()
            == primary_keys@.len() + 1 && forall|j: int|
            0 <= j < child_page_indexes@.len() ==> 1 <= #[trigger] child_page_indexes@[j] < n,
        Page::BTreeLeaf { next_leaf_page_index, .. } => next_leaf_page_index < n,
    }
}

/// The pages of a table file: the meta page first, pointing at a root among
/// the others, and links that stay inside the file.
pub open spec fn pages_wf(pages: Seq<Page>) -> bool {
    &&& 2 <= pages.len() <= 0xffff_ffff
    &&& pages[0] matches Page::Meta { b_tree_root_page_index: r, .. } && 1 <= r < pages.len()
    &&& forall|i: int| 1 <= i < pages.len() ==> page_links_ok(#[trigger] pages[i], pages.len())
}

proof fn lemma_links_grow(p: Page, n: nat, m: nat)
    requires
        page_links_ok(p, n),
        n <= m,
    ensures
        page_links_ok(p, m),
{
}

proof fn lemma_wf_push(pages: Seq<Page>, p: Page)
    requires
        pages_wf(pages),
        pages.len() < 0xffff_ffff,
        page_links_ok(p, pages.len() + 1),
    ensures
        pages_wf(pages.push(p)),
{
    let q = pages.push(p);
    assert forall|i: int| 1 <= i < q.len() implies page_links_ok(#[trigger] q[i], q.len()) by {
        if i < pages.len() {
            assert(q[i] == pages[i]);
            lemma_links_grow(pages[i], pages.len(), q.len());
        }
    }
}

proof fn lemma_wf_update(pages: Seq<Page>, i: int, p: Page)
    requires
        pages_wf(pages),
        1 <= i < pages.len(),
        page_links_ok(p, pages.len()),
    ensures
        pages_wf(pages.update(i, p)),
{
    let q = pages.update(i, p);
    assert forall|k: int| 1 <= k < q.len() implies page_links_ok(#[trigger] q[k], q.len()) by {
        if k != i {
            assert(q[k] == pages[k]);
        }
    }
}

fn take_page(pages: &mut Vec<Page>, i: usize) -> (r: Page)
    requires
        pages_wf(old(pages)@),
        1 <= i < old(pages)@.len(),
    ensures
        r == old(pages)@[i as int],
        final(pages)@.len() == old(pages)@.len(),
        forall|k: int| 0 <= k < old(pages)@.len() && k != i ==> final(pages)@[k] == old(pages)@[k],
        final(pages)@[i as int] matches Page::BTreeLeaf { next_leaf_page_index, rows } && next_leaf_page_index == 0
            && rows@.len() == 0,
        pages_wf(final(pages)@),
{
    let r = pages.remove(i);
    let empty = Page::BTreeLeaf { next_leaf_page_index: 0, rows: Vec::new() };
    pages.insert(i, empty);
    proof {
        assert(pages@ =~= old(pages)@.update(i as int, empty));
        lemma_wf_update(old(pages)@, i as int, empty);
    }
    r
}

/// Follows the routing keys from the root down to the leaf where `key` belongs.
/// Returns the leaf's index and, for each node on the way, its index and the
/// child taken. A path that runs in a circle is an error.
pub fn descend(pages: &Vec<Page>, root: usize, key: &DataInstanceRaw) -> (r: Result<
    (usize, Vec<(usize, usize)>),
    BTreeError,
>)
    requires
        pages_wf(pages@),
        1 <= root < pages@.len(),
    ensures
        r is Err ==> r == Err::<(usize, Vec<(usize, usize)>), BTreeError>(BTreeError::Corrupted),
        r matches Ok((leaf, path)) ==> routed_leaf(pages@, root as int, *key, pages@.len()) == Some(
            leaf as int,
        ),
        r matches Ok((leaf, path)) ==> {
            &&& 1 <= leaf < pages@.len()
            &&& pages@[leaf as int] is BTreeLeaf
            &&& path@.len() < pages@.len()
            &&& forall|j: int|
                0 <= j < path@.len() ==> 1 <= (#[trigger] path@[j]).0 < pages@.len() && (
                pages@[path@[j].0 as int] matches Page::BTreeNode { child_page_indexes, .. }
                    && path@[j].1 < child_page_indexes@.len())
            &&& forall|a: int, b: int|
                0 <= a < b < path@.len() ==> (#[trigger] path@[a]).0 != (#[trigger] path@[b]).0
            &&& forall|j: int| 0 <= j < path@.len() ==> (#[trigger] path@[j]).0 != leaf
        },
{
    let n = pages.len();
    let mut current = root;
    let mut path: Vec<(usize, usize)> = Vec::new();
    loop
        invariant
            n == pages@.len(),
            pages_wf(pages@),
            1 <= current < n,
            path@.len() < n,
            forall|j: int|
                0 <= j < path@.len() ==> 1 <= (#[trigger] path@[j]).0 < n && (
                pages@[path@[j].0 as int] matches Page::BTreeNode { child_page_indexes, .. }
                    && path@[j].1 < child_page_indexes@.len()),
            forall|a: int, b: int|
                0 <= a < b < path@.len() ==> (#[trigger] path@[a]).0 != (#[trigger] path@[b]).0,
            routed_leaf(pages@, root as int, *key, n as nat) == routed_leaf(
                pages@,
                current as int,
                *key,
                (n - path@.len()) as nat,
            ),
        decreases n - path@.len(),
    {
        let mut seen = false;
        let mut k: usize = 0;
        while k < path.len()
            invariant
                k <= path@.len(),
                !seen ==> forall|j: int| 0 <= j < k ==> (#[trigger] path@[j]).0 != current,
            decreases path@.len() - k,
        {
            if path[k].0 == current {
                seen = true;
            }
            k += 1;
        }
        if seen {
            return Err(BTreeError::Corrupted);
        }
        match &pages[current] {
            Page::BTreeNode { primary_keys, child_page_indexes } => {
                proof {
                    assert(page_links_ok(pages@[current as int], n as nat));
                }
                let slot = child_index_for_key(primary_keys, key);
                let next = child_page_indexes[slot] as usize;
                if path.len() + 1 >= n {
                    return Err(BTreeError::Corrupted);
                }
                let ghost before = path@;
                path.push((current, slot));
                proof {
                    assert forall|a: int, b: int| 0 <= a < b < path@.len() implies (#[trigger] path@[a]).0
                        != (#[trigger] path@[b]).0 by {
                        if b < before.len() {
                            assert(path@[a] == before[a] && path@[b] == before[b]);
                        } else {
                            assert(path@[a] == before[a]);
                        }
                    }
                    assert forall|j: int| 0 <= j < path@.len() implies 1 <= (#[trigger] path@[j]).0 < n && (
                    pages@[path@[j].0 as int] matches Page::BTreeNode { child_page_indexes, .. }
                        && path@[j].1 < child_page_indexes@.len()) by {
                        if j < before.len() {
                            assert(path@[j] == before[j]);
                        }
                    }
                }
                current = next;
            },
            Page::BTreeLeaf { .. } => {
                return Ok((current, path));
            },
            Page::Meta { .. } => {
                proof {
                    assert(page_links_ok(pages@[current as int], n as nat));
                }
                return Err(BTreeError::Corrupted);
            },
        }
    }
}

/// Whether a node's keys and children fit in one page.
pub fn node_fits_in_page(keys: &Vec<DataInstanceRaw>, children: &Vec<u32>) -> (r: bool)
    ensures
        r == node_fits(keys@, children@),
{
    let n = children.len();
    if n == 0 || n - 1 != keys.len() || n > 0xffff || 4 * n > PAGE_SIZE - 3 {
        return false;
    }
    let mut total: usize = 3 + 4 * n;
    let mut i: usize = 0;
    while i < keys.len()
        invariant
            n == children@.len(),
            n == keys@.len() + 1,
            n <= 0xffff,
            i <= keys@.len(),
            total == 3 + 4 * n + keys_encoding(keys@.take(i as int)).len(),
            total <= PAGE_SIZE,
            forall|j: int| 0 <= j < i ==> raw_encodable(#[trigger] keys@[j]),
        decreases keys@.len() - i,
    {
        proof {
            assert(keys@.take(i + 1).drop_last() =~= keys@.take(i as int));
            lemma_keys_encoding_prefix(keys@, i + 1);
        }
        if !raw_fits(&keys[i]) {
            return false;
        }
        let size = keys[i].encoded_size();
        if size > PAGE_SIZE - total {
            return false;
        }
        total = total + size;
        i += 1;
    }
    proof {
        assert(keys@.take(i as int) =~= keys@);
    }
    true
}

proof fn lemma_keys_encoding_prefix(keys: Seq<DataInstanceRaw>, j: int)
    requires
        0 <= j <= keys.len(),
    ensures
        keys_encoding(keys.take(j)).len() <= keys_encoding(keys).len(),
    decreases keys.len() - j,
{
    if j < keys.len() {
        lemma_keys_encoding_prefix(keys, j + 1);
        assert(keys.take(j + 1).drop_last() =~= keys.take(j));
    } else {
        assert(keys.take(j) =~= keys);
    }
}

impl Page {
    /// Whether the page fits in its bytes, as serializing it requires.
    pub fn fits(&self) -> (r: bool)
        ensures
            r == page_fits(*self),
    {
        match self {
            Page::Meta { .. } => true,
            Page::BTreeNode { primary_keys, child_page_indexes } => node_fits_in_page(
                primary_keys,
                child_page_indexes,
            ),
            Page::BTreeLeaf { rows, .. } => rows_fit_in_leaf(rows),
        }
    }
}

/// Whether pages read from a table file form a file the tree can work on.
pub fn check_pages(pages: &Vec<Page>) -> (r: bool)
    ensures
        r == pages_wf(pages@),
{
    let n = pages.len();
    if n < 2 || n > 0xffff_ffff {
        return false;
    }
    match &pages[0] {
        Page::Meta { b_tree_root_page_index, .. } => {
            let root = *b_tree_root_page_index as usize;
            if root < 1 || root >= n {
                return false;
            }
        },
        _ => return false,
    }
    let mut i: usize = 1;
    while i < n
        invariant
            n == pages@.len(),
            1 <= i <= n,
            forall|k: int| 1 <= k < i ==> page_links_ok(#[trigger] pages@[k], n as nat),
        decreases n - i,
    {
        match &pages[i] {
            Page::Meta { .. } => return false,
            Page::BTreeNode { primary_keys, child_page_indexes } => {
                if child_page_indexes.len() == 0 || child_page_indexes.len() - 1 != primary_keys.len() {
                    return false;
                }
                let mut j: usize = 0;
                while j < child_page_indexes.len()
                    invariant
                        n == pages@.len(),
                        1 <= i < n,
                        pages@[i as int] matches Page::BTreeNode { child_page_indexes: ci, .. } && ci == *child_page_indexes,
                        j <= child_page_indexes@.len(),
                        forall|m: int| 0 <= m < j ==> 1 <= #[trigger] child_page_indexes@[m] < n,
                    decreases child_page_indexes@.len() - j,
                {
                    let c = child_page_indexes[j] as usize;
                    if c < 1 || c >= n {
                        proof {
                            assert(!page_links_ok(pages@[i as int], n as nat));
                        }
                        return false;
                    }
                    j += 1;
                }
            },
            Page::BTreeLeaf { next_leaf_page_index, .. } => {
                if *next_leaf_page_index as usize >= n {
                    return false;
                }
            },
        }
        i += 1;
    }
    true
}

/// The index of the first primary-key column at or after `k`, or -1.
pub open spec fn first_primary_key_from(columns: Seq<ColumnDefinition>, k: int) -> int
    decreases columns.len() - k,
{
    if k < 0 || k >= columns.len() {
        -1
    } else if columns[k].primary_key {
        k
    } else {
        first_primary_key_from(columns, k + 1)
    }
}

/// The index of the table's primary-key column (the first one), or -1.
pub open spec fn first_primary_key(columns: Seq<ColumnDefinition>) -> int {
    first_primary_key_from(columns, 0)
}

proof fn lemma_no_primary_key(columns: Seq<ColumnDefinition>, k: int)
    requires
        0 <= k <= columns.len(),
        forall|j: int| 0 <= j < columns.len() ==> !(#[trigger] columns[j]).primary_key,
    ensures
        first_primary_key_from(columns, k) == -1,
    decreases columns.len() - k,
{
    if k < columns.len() {
        lemma_no_primary_key(columns, k + 1);
    }
}

proof fn lemma_first_primary_key(columns: Seq<ColumnDefinition>, i: int, k: int)
    requires
        0 <= k <= i < columns.len(),
        columns[i].primary_key,
        forall|j: int| 0 <= j < i ==> !(#[trigger] columns[j]).primary_key,
    ensures
        first_primary_key_from(columns, k) == i,
    decreases i - k,
{
    if k < i {
        lemma_first_primary_key(columns, i, k + 1);
    }
}

/// A leaf's rows are in strictly ascending key order; other pages have no rows.
pub open spec fn page_sorted(p: Page, pk: int) -> bool {
    p matches Page::BTreeLeaf { rows, .. } ==> rows_sorted(rows@, pk)
}

/// Every leaf's rows are in strictly ascending key order.
pub open spec fn leaves_sorted(pages: Seq<Page>, pk: int) -> bool {
    forall|i: int| 0 <= i < pages.len() ==> page_sorted(#[trigger] pages[i], pk)
}

proof fn lemma_sorted_update(pages: Seq<Page>, i: int, p: Page, pk: int)
    requires
        leaves_sorted(pages, pk),
        page_sorted(p, pk),
        0 <= i < pages.len(),
    ensures
        leaves_sorted(pages.update(i, p), pk),
{
    assert forall|k: int| 0 <= k < pages.len() implies page_sorted(#[trigger] pages.update(i, p)[k], pk) by {
        if k != i {
            assert(pages.update(i, p)[k] == pages[k]);
        }
    }
}

proof fn lemma_sorted_push(pages: Seq<Page>, p: Page, pk: int)
    requires
        leaves_sorted(pages, pk),
        page_sorted(p, pk),
    ensures
        leaves_sorted(pages.push(p), pk),
{
    assert forall|k: int| 0 <= k < pages.len() + 1 implies page_sorted(#[trigger] pages.push(p)[k], pk) by {
        if k < pages.len() {
            assert(pages.push(p)[k] == pages[k]);
        }
    }
}

proof fn lemma_sorted_subrange(rows: Seq<Row>, pk: int, a: int, b: int)
    requires
        rows_sorted(rows, pk),
        0 <= a <= b <= rows.len(),
    ensures
        rows_sorted(rows.subrange(a, b), pk),
{
    let sub = rows.subrange(a, b);
    assert forall|i: int, j: int| 0 <= i < j < sub.len() implies (row_key(#[trigger] sub[i], pk) matches Some(x)
        && (row_key(#[trigger] sub[j], pk) matches Some(y) && key_lt(x, y))) by {
        assert(sub[i] == rows[a + i] && sub[j] == rows[a + j]);
    }
}

/// Rows stay stored when every leaf keeps its place, or the rows of the one
/// leaf that changes are found again somewhere.
proof fn lemma_rows_kept(a: Seq<Page>, b: Seq<Page>, li: int)
    requires
        a.len() <= b.len(),
        forall|k: int| 0 <= k < a.len() && k != li && a[k] is BTreeLeaf ==> b[k] == a[k],
        forall|j: int|
            #[trigger] leaf_row_at(a, li, j) is Some ==> exists|p: int, q: int|
                #[trigger] leaf_row_at(b, p, q) == leaf_row_at(a, li, j),
    ensures
        forall|x: Row| stored_row(a, x) ==> #[trigger] stored_row(b, x),
{
    assert forall|x: Row| stored_row(a, x) implies #[trigger] stored_row(b, x) by {
        let (p, j) = choose|p: int, j: int| (#[trigger] leaf_row_at(a, p, j) matches Some(r) && r.0@ == x.0@);
        if p == li {
            let (p2, q2) = choose|p2: int, q2: int| #[trigger] leaf_row_at(b, p2, q2) == leaf_row_at(a, li, j);
            assert(leaf_row_at(b, p2, q2) matches Some(r) && r.0@ == x.0@);
        } else {
            assert(leaf_row_at(b, p, j) == leaf_row_at(a, p, j));
        }
    }
}

/// Inserts a row into the tree of a table whose file holds `pages`.
///
/// The row goes to the leaf that its primary key routes to, at the place that
/// keeps the leaf's rows in key order. A leaf that overflows is split in two
/// halves by count, the upper half moving to a new page after it in the leaf
/// chain; the first key of that half goes up to the parent, and nodes that
/// overflow split the same way. When the root splits, a new root is added and
/// the meta page points at it. New pages are appended to the file.
///
/// A table without a primary key, a row without a plain primary-key value, a
/// duplicate key, a row too large for a leaf and a file with no page indexes
/// left are errors that leave the pages as they were.
pub fn b_tree_insert(pages: &mut Vec<Page>, table: &TableDefinition, row: Row) -> (r: Result<
    (),
    BTreeError,
>)
    requires
        pages_wf(old(pages)@),
    ensures
        pages_wf(final(pages)@),
        r is Err && r != Err::<(), BTreeError>(BTreeError::Corrupted) ==> final(pages)@ == old(pages)@,
        r is Ok ==> final(pages)@.len() >= old(pages)@.len(),
        r is Ok ==> stored_row(final(pages)@, row),
        r is Ok ==> forall|x: Row| stored_row(old(pages)@, x) ==> #[trigger] stored_row(final(pages)@, x),
        leaves_sorted(old(pages)@, first_primary_key(table.columns@)) ==> leaves_sorted(
            final(pages)@,
            first_primary_key(table.columns@),
        ),
        r == Err::<(), BTreeError>(BTreeError::MissingPrimaryKey) <==> first_primary_key(table.columns@)
            == -1,
        r == Err::<(), BTreeError>(BTreeError::InvalidRow) ==> row_key(row, first_primary_key(table.columns@))
            is None || exists|x: Row|
            stored_row(old(pages)@, x) && #[trigger] row_key(x, first_primary_key(table.columns@)) is None,
        r == Err::<(), BTreeError>(BTreeError::DuplicateKey) ==> exists|x: Row|
            stored_row(old(pages)@, x) && (#[trigger] row_key(x, first_primary_key(table.columns@)) matches Some(
                k,
            ) && (row_key(row, first_primary_key(table.columns@)) matches Some(k2) && key_eq(k, k2))),
        r == Err::<(), BTreeError>(BTreeError::RowTooLarge) ==> !row_encodable(row.0@)
            || row_encoding(row.0@).len() > PAGE_SIZE - LEAF_HEADER_SIZE - 2,
        r == Err::<(), BTreeError>(BTreeError::TableFull) ==> 2 * old(pages)@.len() + 1 > 0xffff_ffff,
{
    let ghost initial = pages@;
    let ghost the_row = row;
    let pk = match table.primary_key_index() {
        Some(i) => i,
        None => {
            proof {
                lemma_no_primary_key(table.columns@, 0);
            }
            return Err(BTreeError::MissingPrimaryKey);
        },
    };
    proof {
        lemma_first_primary_key(table.columns@, pk as int, 0);
    }
    let ghost pki = pk as int;
    let ghost sorted0 = leaves_sorted(initial, pki);
    let key = match key_of_row(&row, pk) {
        Some(k) => k,
        None => return Err(BTreeError::InvalidRow),
    };
    match row_size(&row) {
        Some(size) => {
            if size > PAGE_SIZE - LEAF_HEADER_SIZE - 2 {
                return Err(BTreeError::RowTooLarge);
            }
        },
        None => return Err(BTreeError::RowTooLarge),
    }
    let (layout_version, root) = match &pages[0] {
        Page::Meta { layout_version, b_tree_root_page_index } => (
            *layout_version,
            *b_tree_root_page_index as usize,
        ),
        _ => return Err(BTreeError::Corrupted),
    };
    let (leaf_index, path) = match descend(pages, root, &key) {
        Ok(found) => found,
        Err(e) => return Err(e),
    };
    let room = 0xffff_ffff - pages.len();
    if room < 2 || path.len() > room - 2 {
        return Err(BTreeError::TableFull);
    }
    let ghost old_rows = pages@[leaf_index as int]->rows@;
    let position = match &pages[leaf_index] {
        Page::BTreeLeaf { rows, .. } => match leaf_insert_position(rows, pk, &key) {
            Ok(p) => p,
            Err(e) => {
                proof {
                    if e == BTreeError::InvalidRow {
                        let j = choose|j: int| 0 <= j < rows@.len() && row_key(#[trigger] rows@[j], pk as int) is None;
                        assert(leaf_row_at(initial, leaf_index as int, j) == Some(rows@[j]));
                        assert(stored_row(initial, rows@[j]));
                    } else {
                        let j = choose|j: int|
                            0 <= j < rows@.len() && (row_key(#[trigger] rows@[j], pk as int) matches Some(k)
                                && key_eq(k, key));
                        assert(leaf_row_at(initial, leaf_index as int, j) == Some(rows@[j]));
                        assert(stored_row(initial, rows@[j]));
                    }
                }
                return Err(e);
            },
        },
        _ => return Err(BTreeError::Corrupted),
    };
    proof {
        assert(position <= old_rows.len());
        assert(forall|j: int| 0 <= j < position ==> (row_key(#[trigger] old_rows[j], pki) matches Some(k) && key_lt(k, key)));
        assert(position < old_rows.len() ==> (row_key(old_rows[position as int], pki) matches Some(k) && key_lt(key, k)));
    }
    // The key that goes up if the leaf splits: the first key of its upper half.
    let upper_key = match &pages[leaf_index] {
        Page::BTreeLeaf { rows, .. } => {
            let mid = rows.len() / 2 + rows.len() % 2;
            let upper = if mid < position {
                key_of_row(&rows[mid], pk)
            } else if mid == position {
                Some(copy_raw(&key))
            } else {
                key_of_row(&rows[mid - 1], pk)
            };
            proof {
                if upper is None {
                    let j = if mid < position { mid as int } else { mid - 1 };
                    assert(leaf_row_at(initial, leaf_index as int, j) == Some(rows@[j]));
                    assert(stored_row(initial, rows@[j]));
                }
            }
            upper
        },
        _ => return Err(BTreeError::Corrupted),
    };
    let upper_key = match upper_key {
        Some(k) => k,
        None => return Err(BTreeError::InvalidRow),
    };
    // From here on, the pages change.
    let leaf = take_page(pages, leaf_index);
    let (next, mut rows) = match leaf {
        Page::BTreeLeaf { next_leaf_page_index, rows } => (next_leaf_page_index, rows),
        _ => {
            proof {
                assert(false);
            }
            return Err(BTreeError::Corrupted);
        },
    };
    proof {
        assert(page_links_ok(initial[leaf_index as int], initial.len()));
        assert(rows@ == old_rows);
        if sorted0 {
            assert(pages@ =~= initial.update(leaf_index as int, pages@[leaf_index as int]));
            lemma_sorted_update(initial, leaf_index as int, pages@[leaf_index as int], pki);
            assert(page_sorted(initial[leaf_index as int], pki));
        }
    }
    rows.insert(position, row);
    proof {
        assert(rows@[position as int] == the_row);
        if sorted0 {
            lemma_leaf_insert_keeps_order(old_rows, pki, position as int, the_row, key);
        }
    }
    if rows_fit_in_leaf(&rows) {
        let page = Page::BTreeLeaf { next_leaf_page_index: next, rows };
        proof {
            lemma_wf_update(pages@, leaf_index as int, page);
            if sorted0 {
                lemma_sorted_update(pages@, leaf_index as int, page, pki);
            }
        }
        pages.set(leaf_index, page);
        proof {
            assert(leaf_row_at(pages@, leaf_index as int, position as int) == Some(the_row));
            assert(stored_row(pages@, the_row));
            assert forall|j: int| #[trigger] leaf_row_at(initial, leaf_index as int, j) is Some implies exists|
                p: int,
                q: int,
            | #[trigger] leaf_row_at(pages@, p, q) == leaf_row_at(initial, leaf_index as int, j) by {
                let q = if j < position { j } else { j + 1 };
                assert(leaf_row_at(pages@, leaf_index as int, q) == leaf_row_at(initial, leaf_index as int, j));
            }
            lemma_rows_kept(initial, pages@, leaf_index as int);
        }
        return Ok(());
    }
    let mid = rows.len() / 2;
    let ghost all_rows = rows@;
    let upper_rows = rows.split_off(mid);
    proof {
        if sorted0 {
            lemma_sorted_subrange(all_rows, pki, 0, mid as int);
            lemma_sorted_subrange(all_rows, pki, mid as int, all_rows.len() as int);
        }
    }
    let upper_index = pages.len();
    let upper_leaf = Page::BTreeLeaf { next_leaf_page_index: next, rows: upper_rows };
    proof {
        lemma_wf_push(pages@, upper_leaf);
        if sorted0 {
            lemma_sorted_push(pages@, upper_leaf, pki);
        }
    }
    pages.push(upper_leaf);
    let lower_leaf = Page::BTreeLeaf { next_leaf_page_index: upper_index as u32, rows };
    proof {
        lemma_wf_update(pages@, leaf_index as int, lower_leaf);
        if sorted0 {
            lemma_sorted_update(pages@, leaf_index as int, lower_leaf, pki);
        }
    }
    pages.set(leaf_index, lower_leaf);
    let ghost witness_page: int = if position < mid {
        leaf_index as int
    } else {
        upper_index as int
    };
    let ghost witness_row: int = if position < mid {
        position as int
    } else {
        position - mid
    };
    proof {
        assert(leaf_row_at(pages@, witness_page, witness_row) == Some(the_row));
        assert forall|j: int| #[trigger] leaf_row_at(initial, leaf_index as int, j) is Some implies exists|
            p: int,
            q: int,
        | #[trigger] leaf_row_at(pages@, p, q) == leaf_row_at(initial, leaf_index as int, j) by {
            let q = if j < position { j } else { j + 1 };
            assert(all_rows[q] == old_rows[j]);
            if q < mid {
                assert(leaf_row_at(pages@, leaf_index as int, q) == leaf_row_at(initial, leaf_index as int, j));
            } else {
                assert(leaf_row_at(pages@, upper_index as int, q - mid) == leaf_row_at(initial, leaf_index as int, j));
            }
        }
        lemma_rows_kept(initial, pages@, leaf_index as int);
    }
    let mut carry_key = upper_key;
    let mut carry_child = upper_index as u32;
    let mut level = path.len();
    while level > 0
        invariant
            pages_wf(pages@),
            pages_wf(initial),
            initial == old(pages)@,
            level <= path@.len(),
            path@.len() < initial.len(),
            initial.len() <= pages@.len(),
            pages@.len() + level <= initial.len() + path@.len() + 1,
            initial.len() + path@.len() + 2 <= 0xffff_ffff,
            1 <= carry_child < pages@.len(),
            pages@[0] == initial[0],
            forall|j: int|
                0 <= j < path@.len() ==> 1 <= (#[trigger] path@[j]).0 < initial.len() && (
                initial[path@[j].0 as int] matches Page::BTreeNode { child_page_indexes, .. }
                    && path@[j].1 < child_page_indexes@.len()),
            forall|a: int, b: int|
                0 <= a < b < path@.len() ==> (#[trigger] path@[a]).0 != (#[trigger] path@[b]).0,
            forall|j: int| 0 <= j < level ==> pages@[(#[trigger] path@[j]).0 as int] == initial[path@[j].0 as int],
            leaf_row_at(pages@, witness_page, witness_row) == Some(the_row),
            forall|x: Row| stored_row(initial, x) ==> #[trigger] stored_row(pages@, x),
            the_row == row,
            sorted0 == leaves_sorted(initial, pki),
            pki == first_primary_key(table.columns@),
            pki >= 0,
            sorted0 ==> leaves_sorted(pages@, pki),
            witness_page == leaf_index || witness_page >= initial.len(),
            forall|j: int| 0 <= j < path@.len() ==> (#[trigger] path@[j]).0 != leaf_index,
        decreases level,
    {
        level = level - 1;
        let (node_index, slot) = path[level];
        proof {
            assert(pages@[path@[level as int].0 as int] == initial[path@[level as int].0 as int]);
        }
        let ghost before_take = pages@;
        proof {
            assert(before_take[node_index as int] == initial[node_index as int]);
        }
        let node = take_page(pages, node_index);
        proof {
            if sorted0 {
                assert(pages@ =~= before_take.update(node_index as int, pages@[node_index as int]));
                lemma_sorted_update(before_take, node_index as int, pages@[node_index as int], pki);
            }
        }
        let (mut keys, mut children) = match node {
            Page::BTreeNode { primary_keys, child_page_indexes } => (primary_keys, child_page_indexes),
            _ => {
                proof {
                    assert(false);
                }
                return Err(BTreeError::Corrupted);
            },
        };
        proof {
            assert(page_links_ok(initial[node_index as int], initial.len()));
            assert forall|j: int| 0 <= j < level implies pages@[(#[trigger] path@[j]).0 as int]
                == initial[path@[j].0 as int] by {
                assert(path@[j].0 != node_index);
            }
        }
        proof {
            assert(node == initial[node_index as int]);
            assert(slot < children@.len());
        }
        let child_count = children.len();
        keys.insert(slot, carry_key);
        children.insert(slot + 1, carry_child);
        if node_fits_in_page(&keys, &children) {
            let page = Page::BTreeNode { primary_keys: keys, child_page_indexes: children };
            proof {
                assert(page_links_ok(page, pages@.len()));
                lemma_wf_update(pages@, node_index as int, page);
                if sorted0 {
                    lemma_sorted_update(pages@, node_index as int, page, pki);
                }
            }
            pages.set(node_index, page);
            proof {
                lemma_rows_kept(before_take, pages@, node_index as int);
                assert(pages@.len() >= initial.len());
                assert(leaf_row_at(pages@, witness_page, witness_row) == Some(the_row));
                assert(stored_row(pages@, the_row));
            }
            return Ok(());
        }
        let half = keys.len() / 2;
        let upper_keys = keys.split_off(half + 1);
        let promoted = match keys.pop() {
            Some(k) => k,
            None => {
                proof {
                    assert(false);
                }
                return Err(BTreeError::Corrupted);
            },
        };
        let upper_children = children.split_off(half + 1);
        let upper_index = pages.len();
        let upper_node = Page::BTreeNode { primary_keys: upper_keys, child_page_indexes: upper_children };
        proof {
            assert(page_links_ok(upper_node, pages@.len() + 1));
            lemma_wf_push(pages@, upper_node);
            if sorted0 {
                lemma_sorted_push(pages@, upper_node, pki);
            }
        }
        pages.push(upper_node);
        let lower_node = Page::BTreeNode { primary_keys: keys, child_page_indexes: children };
        proof {
            assert(page_links_ok(lower_node, pages@.len()));
            lemma_wf_update(pages@, node_index as int, lower_node);
            if sorted0 {
                lemma_sorted_update(pages@, node_index as int, lower_node, pki);
            }
        }
        pages.set(node_index, lower_node);
        proof {
            lemma_rows_kept(before_take, pages@, node_index as int);
        }
        carry_key = promoted;
        carry_child = upper_index as u32;
    }
    let ghost before_root = pages@;
    let new_root = pages.len();
    let root_node = Page::BTreeNode {
        primary_keys: vec![carry_key],
        child_page_indexes: vec![root as u32, carry_child],
    };
    proof {
        assert(root_node->child_page_indexes@ =~= seq![root as u32, carry_child]);
        assert(page_links_ok(root_node, pages@.len() + 1));
        lemma_wf_push(pages@, root_node);
        if sorted0 {
            lemma_sorted_push(pages@, root_node, pki);
        }
    }
    pages.push(root_node);
    let meta = Page::Meta { layout_version, b_tree_root_page_index: new_root as u32 };
    proof {
        let q = pages@.update(0, meta);
        assert forall|i: int| 1 <= i < q.len() implies page_links_ok(#[trigger] q[i], q.len()) by {
            assert(q[i] == pages@[i]);
        }
    }
    proof {
        if sorted0 {
            lemma_sorted_update(pages@, 0, meta, pki);
        }
    }
    pages.set(0, meta);
    proof {
        lemma_rows_kept(before_root, pages@, 0);
        assert(leaf_row_at(pages@, witness_page, witness_row) == Some(the_row));
        assert(stored_row(pages@, the_row));
    }
    Ok(())
}

// ---------------------------------------------------------------------------
// Reading the tree

/// A copy of a column value.
pub fn copy_instance(d: &DataInstance) -> (r: DataInstance)
    ensures
        r == *d,
{
    match d {
        DataInstance::Direct(v) => DataInstance::Direct(copy_raw(v)),
        DataInstance::Nullable(v) => DataInstance::Nullable(copy_raw(v)),
        DataInstance::Null => DataInstance::Null,
    }
}

/// A copy of a row.
pub fn copy_row(row: &Row) -> (r: Row)
    ensures
        r.0@ == row.0@,
{
    let mut values: Vec<DataInstance> = Vec::new();
    let mut i: usize = 0;
    while i < row.0.len()
        invariant
            i <= row.0@.len(),
            values@ == row.0@.take(i as int),
        decreases row.0@.len() - i,
    {
        values.push(copy_instance(&row.0[i]));
        proof {
            assert(row.0@.take(i + 1) =~= row.0@.take(i as int).push(row.0@[i as int]));
        }
        i += 1;
    }
    proof {
        assert(row.0@.take(i as int) =~= row.0@);
    }
    Row(values)
}

/// Row `j` of page `p`, if that page is a leaf with such a row.
pub open spec fn leaf_row_at(pages: Seq<Page>, p: int, j: int) -> Option<Row> {
    if 0 <= p < pages.len() {
        match pages[p] {
            Page::BTreeLeaf { rows, .. } => if 0 <= j < rows@.len() {
                Some(rows@[j])
            } else {
                None
            },
            _ => None,
        }
    } else {
        None
    }
}

/// `row` holds the values of a row of one of the leaves.
pub open spec fn stored_row(pages: Seq<Page>, row: Row) -> bool {
    exists|p: int, j: int| (#[trigger] leaf_row_at(pages, p, j) matches Some(r) && r.0@ == row.0@)
}

/// The values of each row.
pub open spec fn row_views(rows: Seq<Row>) -> Seq<Seq<DataInstance>> {
    rows.map_values(|r: Row| r.0@)
}

/// The leaf reached from page `cur` by always taking the first child, within
/// `fuel` steps.
pub open spec fn leftmost_leaf(pages: Seq<Page>, cur: int, fuel: nat) -> Option<int>
    decreases fuel,
{
    if fuel == 0 || !(0 <= cur < pages.len()) {
        None
    } else {
        match pages[cur] {
            Page::BTreeNode { child_page_indexes, .. } => if child_page_indexes@.len() > 0 {
                leftmost_leaf(pages, child_page_indexes@[0] as int, (fuel - 1) as nat)
            } else {
                None
            },
            Page::BTreeLeaf { .. } => Some(cur),
            Page::Meta { .. } => None,
        }
    }
}

/// The rows of the leaves from `cur` along the chain of next leaves up to the
/// link 0, within `fuel` leaves; `None` if the chain is longer or meets a page
/// that is not a leaf.
pub open spec fn chain_rows(pages: Seq<Page>, cur: int, fuel: nat) -> Option<Seq<Seq<DataInstance>>>
    decreases fuel,
{
    if cur == 0 {
        Some(Seq::empty())
    } else if fuel == 0 || !(0 < cur < pages.len()) {
        None
    } else {
        match pages[cur] {
            Page::BTreeLeaf { next_leaf_page_index, rows } => match chain_rows(
                pages,
                next_leaf_page_index as int,
                (fuel - 1) as nat,
            ) {
                Some(rest) => Some(row_views(rows@) + rest),
                None => None,
            },
            _ => None,
        }
    }
}

/// The rows of the table in chain order: from the leftmost leaf under the root
/// along the next-leaf links, each walk bounded by the number of pages.
pub open spec fn leaf_chain_rows(pages: Seq<Page>) -> Option<Seq<Seq<DataInstance>>> {
    match pages[0] {
        Page::Meta { b_tree_root_page_index, .. } => match leftmost_leaf(
            pages,
            b_tree_root_page_index as int,
            pages.len(),
        ) {
            Some(l) => chain_rows(pages, l, pages.len()),
            None => None,
        },
        _ => None,
    }
}

/// All rows of the table, in key order: from the leftmost leaf along the chain
/// of next leaves. A walk longer than the file has pages is an error.
pub fn read_all_rows(pages: &Vec<Page>) -> (r: Result<Vec<Row>, BTreeError>)
    requires
        pages_wf(pages@),
    ensures
        r matches Ok(rows) ==> forall|i: int| 0 <= i < rows@.len() ==> stored_row(pages@, #[trigger] rows@[i]),
        r is Ok <==> leaf_chain_rows(pages@) is Some,
        r matches Ok(rows) ==> leaf_chain_rows(pages@) == Some(row_views(rows@)),
{
    let n = pages.len();
    let root = match &pages[0] {
        Page::Meta { b_tree_root_page_index, .. } => *b_tree_root_page_index as usize,
        _ => return Err(BTreeError::Corrupted),
    };
    let mut current = root;
    // Down the leftmost children.
    let mut steps: usize = 0;
    loop
        invariant
            n == pages@.len(),
            pages_wf(pages@),
            1 <= current < n,
            steps <= n,
            pages@[0] matches Page::Meta { b_tree_root_page_index, .. } && b_tree_root_page_index as int
                == root,
            leftmost_leaf(pages@, root as int, n as nat) == leftmost_leaf(
                pages@,
                current as int,
                (n - steps) as nat,
            ),
        ensures
            1 <= current < n,
            leftmost_leaf(pages@, root as int, n as nat) == Some(current as int),
        decreases n - steps,
    {
        if steps >= n {
            return Err(BTreeError::Corrupted);
        }
        match &pages[current] {
            Page::BTreeNode { child_page_indexes, .. } => {
                proof {
                    assert(page_links_ok(pages@[current as int], n as nat));
                }
                current = child_page_indexes[0] as usize;
            },
            _ => {
                proof {
                    assert(page_links_ok(pages@[current as int], n as nat));
                }
                break;
            },
        }
        steps += 1;
    }
    let ghost start = current as int;
    proof {
        assert(leftmost_leaf(pages@, root as int, n as nat) == Some(start));
    }
    // Along the leaves.
    let mut rows: Vec<Row> = Vec::new();
    let mut visited: usize = 0;
    loop
        invariant
            n == pages@.len(),
            pages_wf(pages@),
            current < n,
            visited <= n,
            leaf_chain_rows(pages@) == chain_rows(pages@, start, n as nat),
            forall|i: int| 0 <= i < rows@.len() ==> stored_row(pages@, #[trigger] rows@[i]),
            chain_rows(pages@, start, n as nat) == match chain_rows(
                pages@,
                current as int,
                (n - visited) as nat,
            ) {
                Some(rest) => Some(row_views(rows@) + rest),
                None => None::<Seq<Seq<DataInstance>>>,
            },
        decreases n - visited,
    {
        if current == 0 {
            proof {
                assert(row_views(rows@) + Seq::<Seq<DataInstance>>::empty() =~= row_views(rows@));
            }
            return Ok(rows);
        }
        if visited >= n {
            return Err(BTreeError::Corrupted);
        }
        match &pages[current] {
            Page::BTreeLeaf { next_leaf_page_index, rows: leaf_rows } => {
                proof {
                    assert(page_links_ok(pages@[current as int], n as nat));
                    assert(pages@[current as int] matches Page::BTreeLeaf { rows: lr, .. } && lr == *leaf_rows);
                }
                let ghost before = row_views(rows@);
                let mut j: usize = 0;
                while j < leaf_rows.len()
                    invariant
                        n == pages@.len(),
                        0 < current < n,
                        pages@[current as int] matches Page::BTreeLeaf { rows: lr, .. } && lr == *leaf_rows,
                        j <= leaf_rows@.len(),
                        forall|i: int| 0 <= i < rows@.len() ==> stored_row(pages@, #[trigger] rows@[i]),
                        row_views(rows@) == before + row_views(leaf_rows@.take(j as int)),
                    decreases leaf_rows@.len() - j,
                {
                    let copy = copy_row(&leaf_rows[j]);
                    proof {
                        assert(stored_row(pages@, copy)) by {
                            assert(leaf_row_at(pages@, current as int, j as int) == Some(leaf_rows@[j as int]));
                        }
                    }
                    let ghost prior = rows@;
                    rows.push(copy);
                    proof {
                        assert(row_views(rows@) =~= row_views(prior).push(copy.0@));
                        assert(row_views(leaf_rows@.take(j + 1)) =~= row_views(leaf_rows@.take(j as int)).push(
                            leaf_rows@[j as int].0@,
                        ));
                        assert(row_views(rows@) =~= before + row_views(leaf_rows@.take(j + 1)));
                    }
                    j += 1;
                }
                proof {
                    assert(leaf_rows@.take(j as int) =~= leaf_rows@);
                    let rest = chain_rows(pages@, *next_leaf_page_index as int, (n - visited - 1) as nat);
                    if rest is Some {
                        assert(row_views(rows@) + rest->0 =~= before + (row_views(leaf_rows@) + rest->0));
                    }
                }
                current = *next_leaf_page_index as usize;
            },
            _ => return Err(BTreeError::Corrupted),
        }
        visited += 1;
    }
}

/// The row with `key`, if the leaf that `key` routes to holds one.
pub fn b_tree_lookup(pages: &Vec<Page>, table: &TableDefinition, key: &DataInstanceRaw) -> (r: Result<
    Option<Row>,
    BTreeError,
>)
    requires
        pages_wf(pages@),
    ensures
        r matches Ok(Some(row)) ==> stored_row(pages@, row) && exists|pk: int|
            (#[trigger] row_key(row, pk) matches Some(k) && key_eq(k, *key)),
        r matches Ok(None) ==> (pages@[0] matches Page::Meta { b_tree_root_page_index, .. } && (
        routed_leaf(pages@, b_tree_root_page_index as int, *key, pages@.len()) matches Some(l)
            && no_row_with_key(pages@, l, first_primary_key(table.columns@), *key))),
{
    let pk = match table.primary_key_index() {
        Some(i) => i,
        None => return Err(BTreeError::MissingPrimaryKey),
    };
    let root = match &pages[0] {
        Page::Meta { b_tree_root_page_index, .. } => *b_tree_root_page_index as usize,
        _ => return Err(BTreeError::Corrupted),
    };
    proof {
        lemma_first_primary_key(table.columns@, pk as int, 0);
    }
    let (leaf_index, _) = match descend(pages, root, key) {
        Ok(found) => found,
        Err(e) => return Err(e),
    };
    match &pages[leaf_index] {
        Page::BTreeLeaf { rows, .. } => {
            let mut j: usize = 0;
            while j < rows.len()
                invariant
                    j <= rows@.len(),
                    0 <= leaf_index < pages@.len(),
                    pages@[leaf_index as int] matches Page::BTreeLeaf { rows: lr, .. } && lr == *rows,
                    pk as int == first_primary_key(table.columns@),
                    forall|jj: int|
                        0 <= jj < j ==> !(row_key(#[trigger] rows@[jj], pk as int) matches Some(k) && key_eq(
                            k,
                            *key,
                        )),
                decreases rows@.len() - j,
            {
                if let Some(k) = key_of_row(&rows[j], pk) {
                    if compare_keys(&k, key) == 0 {
                        let copy = copy_row(&rows[j]);
                        proof {
                            assert(stored_row(pages@, copy)) by {
                                assert(leaf_row_at(pages@, leaf_index as int, j as int) == Some(rows@[j as int]));
                            }
                            assert(row_key(copy, pk as int) == row_key(rows@[j as int], pk as int));
                            assert(row_key(copy, pk as int) == Some(k));
                            assert(key_eq(k, *key));
                            assert(exists|p: int| (#[trigger] row_key(copy, p) matches Some(kk) && key_eq(kk, *key)));
                        }
                        return Ok(Some(copy));
                    }
                }
                j += 1;
            }
            proof {
                assert forall|jj: int| #[trigger] leaf_row_at(pages@, leaf_index as int, jj) is Some implies !(
                row_key(leaf_row_at(pages@, leaf_index as int, jj)->0, first_primary_key(table.columns@)) matches Some(k)
                    && key_eq(k, *key)) by {
                    assert(leaf_row_at(pages@, leaf_index as int, jj) == Some(rows@[jj]));
                }
            }
            Ok(None)
        },
        _ => Err(BTreeError::Corrupted),
    }
}

// ---------------------------------------------------------------------------
// Order of a leaf's rows

/// The rows are in strictly ascending primary-key order.
pub open spec fn rows_sorted(rows: Seq<Row>, pk: int) -> bool {
    forall|i: int, j: int|
        0 <= i < j < rows.len() ==> (row_key(#[trigger] rows[i], pk) matches Some(a) && (row_key(
            #[trigger] rows[j],
            pk,
        ) matches Some(b) && key_lt(a, b)))
}

proof fn lemma_bytes_lt_transitive(a: Seq<u8>, b: Seq<u8>, c: Seq<u8>)
    requires
        bytes_lt(a, b),
        bytes_lt(b, c),
    ensures
        bytes_lt(a, c),
    decreases a.len(),
{
    if a.len() > 0 && b.len() > 0 && c.len() > 0 && a[0] == b[0] && b[0] == c[0] {
        lemma_bytes_lt_transitive(a.drop_first(), b.drop_first(), c.drop_first());
    }
}

/// The key order is transitive.
pub proof fn lemma_key_lt_transitive(a: DataInstanceRaw, b: DataInstanceRaw, c: DataInstanceRaw)
    requires
        key_lt(a, b),
        key_lt(b, c),
    ensures
        key_lt(a, c),
{
    match (a, b, c) {
        (DataInstanceRaw::String(x), DataInstanceRaw::String(y), DataInstanceRaw::String(z)) => {
            lemma_bytes_lt_transitive(encode_utf8(x@), encode_utf8(y@), encode_utf8(z@));
        },
        _ => {},
    }
}

/// Inserting a row where `leaf_insert_position` puts it keeps a leaf's rows in
/// strictly ascending key order.
pub proof fn lemma_leaf_insert_keeps_order(rows: Seq<Row>, pk: int, p: int, row: Row, key: DataInstanceRaw)
    requires
        rows_sorted(rows, pk),
        row_key(row, pk) == Some(key),
        0 <= p <= rows.len(),
        forall|j: int| 0 <= j < p ==> (row_key(#[trigger] rows[j], pk) matches Some(k) && key_lt(k, key)),
        p < rows.len() ==> (row_key(rows[p], pk) matches Some(k) && key_lt(key, k)),
    ensures
        rows_sorted(rows.insert(p, row), pk),
{
    let r = rows.insert(p, row);
    assert forall|i: int, j: int| 0 <= i < j < r.len() implies (row_key(#[trigger] r[i], pk) matches Some(
        a,
    ) && (row_key(#[trigger] r[j], pk) matches Some(b) && key_lt(a, b))) by {
        if j < p {
            assert(r[i] == rows[i] && r[j] == rows[j]);
        } else if j == p {
            assert(r[i] == rows[i] && r[j] == row);
        } else if i < p {
            assert(r[i] == rows[i] && r[j] == rows[j - 1]);
            let a = row_key(rows[i], pk)->0;
            let b = row_key(rows[j - 1], pk)->0;
            let q = row_key(rows[p], pk)->0;
            if j - 1 > p {
                assert(key_lt(q, b));
                lemma_key_lt_transitive(key, q, b);
            }
            lemma_key_lt_transitive(a, key, b);
        } else if i == p {
            assert(r[i] == row && r[j] == rows[j - 1]);
            let b = row_key(rows[j - 1], pk)->0;
            let q = row_key(rows[p], pk)->0;
            if j - 1 > p {
                assert(key_lt(q, b));
                lemma_key_lt_transitive(key, q, b);
            }
        } else {
            assert(r[i] == rows[i - 1] && r[j] == rows[j - 1]);
        }
    }
}

} // verus!
