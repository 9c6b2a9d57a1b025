//! What the executor does for each statement, short of reading and writing
//! files: building the row an INSERT stores, projecting the rows a SELECT
//! returns, and the catalog entries of a CREATE TABLE.

use crate::components::{conforms, raw_type_of, ColumnDefinition, DataDefinition, DataInstance, DataInstanceRaw, DataType, TableDefinition};
use crate::btree::{copy_instance, copy_raw};
use crate::encoding::Row;
use crate::errors::ValidationError;
use crate::statements::{InsertStatement, SelectColumn};
use crate::tokenizer::{DataTypeRaw, Function};
use vstd::prelude::*;
use vstd::string::*;

verus! {

/// What a statement returns: the selected column names and the rows.
#[derive(Debug, PartialEq, Eq)]
pub struct QueryResult {
    pub column_names: Vec<String>,
    pub rows: Vec<Row>,
}

/// The value a literal takes in a column of type `t`: a number in any integer
/// column it fits (and as seconds in a timestamp column), a string in a string
/// column, NULL in a nullable column; in a nullable column a value is wrapped
/// as `Nullable`.
pub open spec fn coerced(v: DataInstance, t: DataType) -> Option<DataInstance> {
    let raw = match v {
        DataInstance::Direct(r) => Some(r),
        DataInstance::Nullable(r) => Some(r),
        DataInstance::Null => None,
    };
    match raw {
        None => if t.is_nullable {
            Some(DataInstance::Null)
        } else {
            None
        },
        Some(r) => match coerced_raw(r, t.raw_type) {
            Some(c) => if t.is_nullable {
                Some(DataInstance::Nullable(c))
            } else {
                Some(DataInstance::Direct(c))
            },
            None => None,
        },
    }
}

/// An integer of any width, as a number.
pub open spec fn integer_value(r: DataInstanceRaw) -> Option<int> {
    match r {
        DataInstanceRaw::UInt8(x) => Some(x as int),
        DataInstanceRaw::UInt16(x) => Some(x as int),
        DataInstanceRaw::UInt32(x) => Some(x as int),
        DataInstanceRaw::UInt64(x) => Some(x as int),
        DataInstanceRaw::UInt128(x) => Some(x as int),
        _ => None,
    }
}

pub open spec fn coerced_raw(r: DataInstanceRaw, t: DataTypeRaw) -> Option<DataInstanceRaw> {
    if raw_type_of(r) == t {
        Some(r)
    } else {
        match integer_value(r) {
            Some(n) => match t {
                DataTypeRaw::UInt8 => if n <= u8::MAX { Some(DataInstanceRaw::UInt8(n as u8)) } else { None },
                DataTypeRaw::UInt16 => if n <= u16::MAX { Some(DataInstanceRaw::UInt16(n as u16)) } else { None },
                DataTypeRaw::UInt32 => if n <= u32::MAX { Some(DataInstanceRaw::UInt32(n as u32)) } else { None },
                DataTypeRaw::UInt64 => if n <= u64::MAX { Some(DataInstanceRaw::UInt64(n as u64)) } else { None },
                DataTypeRaw::UInt128 => Some(DataInstanceRaw::UInt128(n as u128)),
                DataTypeRaw::Timestamp => if n <= i64::MAX { Some(DataInstanceRaw::Timestamp(n as i64)) } else { None },
                _ => None,
            },
            None => None,
        }
    }
}

fn integer_of(r: &DataInstanceRaw) -> (n: Option<u128>)
    ensures
        n matches Some(x) ==> integer_value(*r) == Some(x as int),
        n is None ==> integer_value(*r) is None,
{
    match r {
        DataInstanceRaw::UInt8(x) => Some(*x as u128),
        DataInstanceRaw::UInt16(x) => Some(*x as u128),
        DataInstanceRaw::UInt32(x) => Some(*x as u128),
        DataInstanceRaw::UInt64(x) => Some(*x as u128),
        DataInstanceRaw::UInt128(x) => Some(*x),
        _ => None,
    }
}

fn same_type(r: &DataInstanceRaw, t: DataTypeRaw) -> (b: bool)
    ensures
        b == (raw_type_of(*r) == t),
{
    match (r, t) {
        (DataInstanceRaw::UInt8(_), DataTypeRaw::UInt8) => true,
        (DataInstanceRaw::UInt16(_), DataTypeRaw::UInt16) => true,
        (DataInstanceRaw::UInt32(_), DataTypeRaw::UInt32) => true,
        (DataInstanceRaw::UInt64(_), DataTypeRaw::UInt64) => true,
        (DataInstanceRaw::UInt128(_), DataTypeRaw::UInt128) => true,
        (DataInstanceRaw::Bool(_), DataTypeRaw::Bool) => true,
        (DataInstanceRaw::Timestamp(_), DataTypeRaw::Timestamp) => true,
        (DataInstanceRaw::Uuid(_), DataTypeRaw::Uuid) => true,
        (DataInstanceRaw::String(_), DataTypeRaw::String) => true,
        _ => false,
    }
}

fn coerce_raw(r: &DataInstanceRaw, t: DataTypeRaw) -> (c: Option<DataInstanceRaw>)
    ensures
        c == coerced_raw(*r, t),
{
    if same_type(r, t) {
        return Some(copy_raw(r));
    }
    match integer_of(r) {
        Some(n) => match t {
            DataTypeRaw::UInt8 => if n <= 0xff { Some(DataInstanceRaw::UInt8(n as u8)) } else { None },
            DataTypeRaw::UInt16 => if n <= 0xffff { Some(DataInstanceRaw::UInt16(n as u16)) } else { None },
            DataTypeRaw::UInt32 => if n <= 0xffff_ffff { Some(DataInstanceRaw::UInt32(n as u32)) } else { None },
            DataTypeRaw::UInt64 => if n <= 0xffff_ffff_ffff_ffff { Some(DataInstanceRaw::UInt64(n as u64)) } else { None },
            DataTypeRaw::UInt128 => Some(DataInstanceRaw::UInt128(n)),
            DataTypeRaw::Timestamp => if n <= 0x7fff_ffff_ffff_ffff { Some(DataInstanceRaw::Timestamp(n as i64)) } else { None },
            _ => None,
        },
        None => None,
    }
}

/// The value a literal takes in a column of type `t`, if it can go there.
pub fn coerce(v: &DataInstance, t: DataType) -> (r: Option<DataInstance>)
    ensures
        r == coerced(*v, t),
        r matches Some(d) ==> conforms(d, t),
{
    let raw = match v {
        DataInstance::Direct(r) => r,
        DataInstance::Nullable(r) => r,
        DataInstance::Null => {
            return if t.is_nullable { Some(DataInstance::Null) } else { None };
        },
    };
    match coerce_raw(raw, t.raw_type) {
        Some(c) => if t.is_nullable {
            Some(DataInstance::Nullable(c))
        } else {
            Some(DataInstance::Direct(c))
        },
        None => None,
    }
}

fn find_name(names: &Vec<String>, name: &String) -> (r: Option<usize>)
    ensures
        r matches Some(i) ==> i < names@.len() && names@[i as int]@ == name@,
        r is None ==> forall|i: int| 0 <= i < names@.len() ==> (#[trigger] names@[i])@ != name@,
        r matches Some(i) ==> name_index(names@, name@) == Some(i as int),
        r is None ==> name_index(names@, name@) is None,
{
    let mut i: usize = 0;
    while i < names.len()
        invariant
            i <= names@.len(),
            forall|j: int| 0 <= j < i ==> (#[trigger] names@[j])@ != name@,
            name_index(names@.take(i as int), name@) is None,
        decreases names@.len() - i,
    {
        proof {
            assert(names@.take(i + 1).drop_last() =~= names@.take(i as int));
        }
        if names[i].eq(name) {
            proof {
                lemma_name_index_extend(names@, name@, i as int);
            }
            return Some(i);
        }
        i += 1;
    }
    proof {
        assert(names@.take(i as int) =~= names@);
    }
    None
}

proof fn lemma_name_index_extend(names: Seq<String>, name: Seq<char>, i: int)
    requires
        0 <= i < names.len(),
        name_index(names.take(i), name) is None,
        names[i]@ == name,
    ensures
        name_index(names, name) == Some(i),
    decreases names.len() - i,
{
    lemma_name_index_prefix(names, name, i, names.len() as int);
    assert(names.take(names.len() as int) =~= names);
}

proof fn lemma_name_index_prefix(names: Seq<String>, name: Seq<char>, i: int, n: int)
    requires
        0 <= i < n <= names.len(),
        name_index(names.take(i), name) is None,
        names[i]@ == name,
    ensures
        name_index(names.take(n), name) == Some(i),
    decreases n - i,
{
    if n == i + 1 {
        assert(names.take(n).drop_last() =~= names.take(i));
    } else {
        lemma_name_index_prefix(names, name, i, n - 1);
        assert(names.take(n).drop_last() =~= names.take(n - 1));
    }
    if n == names.len() {
        assert(names.take(n) =~= names);
    }
}

/// The index of the first name equal to `name`, if any.
pub open spec fn name_index(names: Seq<String>, name: Seq<char>) -> Option<int>
    decreases names.len(),
{
    if names.len() == 0 {
        None
    } else {
        match name_index(names.drop_last(), name) {
            Some(i) => Some(i),
            None => if names.last()@ == name {
                Some(names.len() - 1)
            } else {
                None
            },
        }
    }
}

/// An INSERT can give `column` a value: the value named for it fits, or it is
/// not named and has a constant default that fits, a function default of its
/// type, or is nullable.
pub open spec fn column_can_be_filled(s: InsertStatement, column: ColumnDefinition) -> bool {
    let t = column.data_type;
    match name_index(s.column_names@, column.name@) {
        Some(k) => k < s.values@.len() && coerced(s.values@[k], t) is Some,
        None => match column.default {
            Some(DataDefinition::Const(c)) => coerced(c, t) is Some,
            Some(DataDefinition::FunctionCall(Function::Now)) => t.raw_type == DataTypeRaw::Timestamp,
            Some(DataDefinition::FunctionCall(Function::Ulid)) => t.raw_type == DataTypeRaw::Uuid,
            _ => t.is_nullable,
        },
    }
}

/// An INSERT fits a table: every name is a column, and every column can be filled.
pub open spec fn insert_fits(table: TableDefinition, s: InsertStatement) -> bool {
    &&& forall|k: int|
        0 <= k < s.column_names@.len() ==> #[trigger] column_index(table.columns@, s.column_names@[k]@) is Some
    &&& forall|i: int| 0 <= i < table.columns@.len() ==> column_can_be_filled(s, #[trigger] table.columns@[i])
}

/// The value an INSERT gives to `column`: the value named for it, else its
/// constant default, else NULL for a nullable column.
pub open spec fn insert_value_for(s: InsertStatement, column: ColumnDefinition, i: int, v: DataInstance) -> bool {
    conforms(v, column.data_type) && if (exists|k: int|
        0 <= k < s.column_names@.len() && (#[trigger] s.column_names@[k])@ == column.name@) {
        exists|k: int|
            0 <= k < s.column_names@.len() && (#[trigger] s.column_names@[k])@ == column.name@
                && k < s.values@.len() && coerced(s.values@[k], column.data_type) == Some(v)
    } else {
        match column.default {
            Some(DataDefinition::Const(c)) => coerced(c, column.data_type) == Some(v),
            Some(DataDefinition::FunctionCall(_)) => true,
            _ => column.data_type.is_nullable && v == DataInstance::Null,
        }
    }
}

/// The row that an INSERT stores in `table`, one value per column in the
/// table's order. Each named value must fit its column; a column not named
/// takes its default, or NULL if it is nullable. A name that is not a column
/// of the table, a value that does not fit, or a missing value for a column
/// that can be neither defaulted nor NULL are errors.
pub fn row_for_insert(table: &TableDefinition, statement: &InsertStatement) -> (r: Result<Row, ValidationError>)
    ensures
        r matches Ok(row) ==> row.0@.len() == table.columns@.len() && forall|i: int|
            0 <= i < table.columns@.len() ==> insert_value_for(
                *statement,
                table.columns@[i],
                i,
                #[trigger] row.0@[i],
            ),
        r is Ok <==> insert_fits(*table, *statement),
{
    let mut k: usize = 0;
    while k < statement.column_names.len()
        invariant
            k <= statement.column_names@.len(),
            forall|j: int|
                0 <= j < k ==> #[trigger] column_index(table.columns@, statement.column_names@[j]@) is Some,
        decreases statement.column_names@.len() - k,
    {
        if find_column(table, &statement.column_names[k]).is_none() {
            proof {
                assert(column_index(table.columns@, statement.column_names@[k as int]@) is None);
            }
            return Err(ValidationError(String::from_str("No such column: ").concat(
                statement.column_names[k].as_str(),
            )));
        }
        k += 1;
    }
    let mut values: Vec<DataInstance> = Vec::new();
    let mut i: usize = 0;
    while i < table.columns.len()
        invariant
            i <= table.columns@.len(),
            values@.len() == i,
            forall|j: int|
                0 <= j < i ==> insert_value_for(*statement, table.columns@[j], j, #[trigger] values@[j]),
            forall|j: int|
                0 <= j < statement.column_names@.len() ==> #[trigger] column_index(table.columns@, statement.column_names@[j]@) is Some,
            forall|j: int| 0 <= j < i ==> column_can_be_filled(*statement, #[trigger] table.columns@[j]),
        decreases table.columns@.len() - i,
    {
        let column = &table.columns[i];
        proof {
            assert(*column == table.columns@[i as int]);
        }
        let value = match find_name(&statement.column_names, &column.name) {
            Some(k) => {
                if k >= statement.values.len() {
                    return Err(ValidationError(String::from_str("Missing value for column ").concat(
                        column.name.as_str(),
                    )));
                }
                match coerce(&statement.values[k], column.data_type) {
                    Some(v) => v,
                    None => {
                        return Err(ValidationError(String::from_str("Value does not fit column ").concat(
                            column.name.as_str(),
                        )));
                    },
                }
            },
            None => match &column.default {
                Some(DataDefinition::Const(c)) => match coerce(c, column.data_type) {
                    Some(v) => v,
                    None => {
                        return Err(ValidationError(String::from_str("Default does not fit column ").concat(
                            column.name.as_str(),
                        )));
                    },
                },
                Some(DataDefinition::FunctionCall(f)) => {
                    let called = DataInstance::Direct(f.call());
                    match coerce(&called, column.data_type) {
                        Some(v) => v,
                        None => {
                            return Err(ValidationError(String::from_str("Default does not fit column ").concat(
                                column.name.as_str(),
                            )));
                        },
                    }
                },
                _ => if column.data_type.is_nullable {
                    DataInstance::Null
                } else {
                    return Err(ValidationError(String::from_str("Missing value for column ").concat(
                        column.name.as_str(),
                    )));
                },
            },
        };
        proof {
            assert(column_can_be_filled(*statement, table.columns@[i as int]));
        }
        values.push(value);
        i += 1;
    }
    Ok(Row(values))
}

/// The index of the first column named `name`, if any.
pub open spec fn column_index(columns: Seq<ColumnDefinition>, name: Seq<char>) -> Option<int>
    decreases columns.len(),
{
    if columns.len() == 0 {
        None
    } else if columns.last().name@ == name {
        match column_index(columns.drop_last(), name) {
            Some(i) => Some(i),
            None => Some(columns.len() - 1),
        }
    } else {
        column_index(columns.drop_last(), name)
    }
}

/// Where the selected columns stand in the table, in selection order: `*`
/// stands for every column in order, a name for the first column so named.
/// `None` if a name is not a column of the table.
pub open spec fn selection(columns: Seq<ColumnDefinition>, selected: Seq<SelectColumn>) -> Option<Seq<int>>
    decreases selected.len(),
{
    if selected.len() == 0 {
        Some(Seq::empty())
    } else {
        match selection(columns, selected.drop_last()) {
            None => None,
            Some(before) => match selected.last() {
                SelectColumn::All => Some(before + Seq::new(columns.len(), |i: int| i)),
                SelectColumn::Identifier(name) => match column_index(columns, name@) {
                    Some(i) => Some(before.push(i)),
                    None => None,
                },
            },
        }
    }
}

proof fn lemma_column_index_bounds(columns: Seq<ColumnDefinition>, name: Seq<char>)
    ensures
        column_index(columns, name) matches Some(i) ==> 0 <= i < columns.len() && columns[i].name@ == name,
    decreases columns.len(),
{
    if columns.len() > 0 {
        lemma_column_index_bounds(columns.drop_last(), name);
    }
}

fn find_column(table: &TableDefinition, name: &String) -> (r: Option<usize>)
    ensures
        r matches Some(i) ==> column_index(table.columns@, name@) == Some(i as int),
        r is None ==> column_index(table.columns@, name@) is None,
{
    let n = table.columns.len();
    let mut found: Option<usize> = None;
    let mut j: usize = 0;
    while j < n
        invariant
            n == table.columns@.len(),
            j <= n,
            found matches Some(x) ==> column_index(table.columns@.take(j as int), name@) == Some(x as int),
            found is None ==> column_index(table.columns@.take(j as int), name@) is None,
        decreases n - j,
    {
        proof {
            assert(table.columns@.take(j + 1).drop_last() =~= table.columns@.take(j as int));
        }
        if found.is_none() && table.columns[j].name.eq(name) {
            found = Some(j);
        }
        j += 1;
    }
    proof {
        assert(table.columns@.take(n as int) =~= table.columns@);
    }
    found
}

/// Where each selected column stands in the table.
pub fn selected_indexes(table: &TableDefinition, columns: &Vec<SelectColumn>) -> (r: Result<Vec<usize>, ValidationError>)
    ensures
        r is Ok <==> selection(table.columns@, columns@) is Some,
        r matches Ok(indexes) ==> selection(table.columns@, columns@) == Some(
            indexes@.map_values(|i: usize| i as int),
        ),
        r matches Ok(indexes) ==> forall|i: int| 0 <= i < indexes@.len() ==> #[trigger] indexes@[i] < table.columns@.len(),
{
    let mut indexes: Vec<usize> = Vec::new();
    let mut c: usize = 0;
    while c < columns.len()
        invariant
            c <= columns@.len(),
            selection(table.columns@, columns@.take(c as int)) == Some(indexes@.map_values(|i: usize| i as int)),
            forall|i: int| 0 <= i < indexes@.len() ==> #[trigger] indexes@[i] < table.columns@.len(),
        decreases columns@.len() - c,
    {
        proof {
            assert(columns@.take(c + 1).drop_last() =~= columns@.take(c as int));
        }
        let ghost before = indexes@;
        match &columns[c] {
            SelectColumn::All => {
                let mut j: usize = 0;
                while j < table.columns.len()
                    invariant
                        j <= table.columns@.len(),
                        indexes@.len() == before.len() + j,
                        indexes@.map_values(|i: usize| i as int) == before.map_values(|i: usize| i as int)
                            + Seq::new(j as nat, |i: int| i),
                        forall|i: int| 0 <= i < indexes@.len() ==> #[trigger] indexes@[i] < table.columns@.len(),
                    decreases table.columns@.len() - j,
                {
                    let ghost prev = indexes@;
                    indexes.push(j);
                    proof {
                        assert(indexes@.map_values(|i: usize| i as int) =~= prev.map_values(|i: usize| i as int).push(j as int));
                        assert(Seq::new((j + 1) as nat, |i: int| i) =~= Seq::new(j as nat, |i: int| i).push(j as int));
                    }
                    j += 1;
                }
            },
            SelectColumn::Identifier(name) => {
                match find_column(table, name) {
                    Some(x) => {
                        proof {
                            lemma_column_index_bounds(table.columns@, name@);
                        }
                        indexes.push(x);
                        proof {
                            assert(indexes@.map_values(|i: usize| i as int) =~= before.map_values(|i: usize| i as int).push(x as int));
                        }
                    },
                    None => {
                        proof {
                            lemma_selection_fails_on(table.columns@, columns@, (c + 1) as int);
                        }
                        return Err(ValidationError(String::from_str("No such column: ").concat(
                            name.as_str(),
                        )));
                    },
                }
            },
        }
        c += 1;
    }
    proof {
        assert(columns@.take(c as int) =~= columns@);
    }
    Ok(indexes)
}

proof fn lemma_selection_fails_on(columns: Seq<ColumnDefinition>, selected: Seq<SelectColumn>, k: int)
    requires
        0 <= k <= selected.len(),
        selection(columns, selected.take(k)) is None,
    ensures
        selection(columns, selected) is None,
    decreases selected.len() - k,
{
    if k < selected.len() {
        assert(selected.take(k + 1).drop_last() =~= selected.take(k));
        lemma_selection_fails_on(columns, selected, k + 1);
    } else {
        assert(selected.take(k) =~= selected);
    }
}

/// The result of a SELECT over `rows` of `table`: the selected columns' names
/// and, for each row, the selected values in that order.
pub fn project_rows(table: &TableDefinition, columns: &Vec<SelectColumn>, rows: &Vec<Row>) -> (r: Result<QueryResult, ValidationError>)
    ensures
        selection(table.columns@, columns@) is None ==> r is Err,
        selection(table.columns@, columns@) is Some && (forall|i: int|
            0 <= i < rows@.len() ==> (#[trigger] rows@[i]).0@.len() >= table.columns@.len()) ==> r is Ok,
        r matches Ok(q) ==> selection(table.columns@, columns@) matches Some(ix) && q.column_names@.len()
            == ix.len() && (forall|c: int|
            0 <= c < ix.len() ==> (#[trigger] q.column_names@[c])@ == table.columns@[ix[c]].name@)
            && q.rows@.len() == rows@.len() && forall|i: int|
            0 <= i < rows@.len() ==> (#[trigger] q.rows@[i]).0@.len() == ix.len() && forall|c: int|
                0 <= c < ix.len() ==> #[trigger] q.rows@[i].0@[c] == rows@[i].0@[ix[c]],
{
    let indexes = match selected_indexes(table, columns) {
        Ok(ix) => ix,
        Err(e) => return Err(e),
    };
    let ghost ix = indexes@.map_values(|i: usize| i as int);
    let mut column_names: Vec<String> = Vec::new();
    let mut k: usize = 0;
    while k < indexes.len()
        invariant
            k <= indexes@.len(),
            column_names@.len() == k,
            ix == indexes@.map_values(|i: usize| i as int),
            forall|i: int| 0 <= i < indexes@.len() ==> #[trigger] indexes@[i] < table.columns@.len(),
            forall|c: int| 0 <= c < k ==> (#[trigger] column_names@[c])@ == table.columns@[ix[c]].name@,
        decreases indexes@.len() - k,
    {
        column_names.push(table.columns[indexes[k]].name.clone());
        k += 1;
    }
    let mut projected: Vec<Row> = Vec::new();
    let mut i: usize = 0;
    while i < rows.len()
        invariant
            i <= rows@.len(),
            projected@.len() == i,
            ix == indexes@.map_values(|i: usize| i as int),
            forall|j: int|
                0 <= j < i ==> (#[trigger] projected@[j]).0@.len() == ix.len() && forall|c: int|
                    0 <= c < ix.len() ==> #[trigger] projected@[j].0@[c] == rows@[j].0@[ix[c]],
            forall|c: int| 0 <= c < indexes@.len() ==> #[trigger] indexes@[c] < table.columns@.len(),
        decreases rows@.len() - i,
    {
        let row = &rows[i];
        let mut values: Vec<DataInstance> = Vec::new();
        let mut k: usize = 0;
        while k < indexes.len()
            invariant
                k <= indexes@.len(),
                values@.len() == k,
                ix == indexes@.map_values(|i: usize| i as int),
                *row == rows@[i as int],
                i < rows@.len(),
                forall|c: int| 0 <= c < k ==> #[trigger] values@[c] == row.0@[ix[c]],
                forall|c: int| 0 <= c < indexes@.len() ==> #[trigger] indexes@[c] < table.columns@.len(),
            decreases indexes@.len() - k,
        {
            let index = indexes[k];
            if index >= row.0.len() {
                return Err(ValidationError(String::from_str("A stored row is shorter than its table")));
            }
            values.push(copy_instance(&row.0[index]));
            k += 1;
        }
        projected.push(Row(values));
        i += 1;
    }
    Ok(QueryResult { column_names, rows: projected })
}

/// The name of a type as the catalog stores it.
pub open spec fn raw_type_label(t: DataTypeRaw) -> Seq<char> {
    match t {
        DataTypeRaw::UInt8 => "UINT8"@,
        DataTypeRaw::UInt16 => "UINT16"@,
        DataTypeRaw::UInt32 => "UINT32"@,
        DataTypeRaw::UInt64 => "UINT64"@,
        DataTypeRaw::UInt128 => "UINT128"@,
        DataTypeRaw::Bool => "BOOL"@,
        DataTypeRaw::Timestamp => "TIMESTAMP"@,
        DataTypeRaw::Uuid => "UUID"@,
        DataTypeRaw::String => "STRING"@,
    }
}

fn raw_type_label_of(t: DataTypeRaw) -> (r: String)
    ensures
        r@ == raw_type_label(t),
{
    match t {
        DataTypeRaw::UInt8 => String::from_str("UINT8"),
        DataTypeRaw::UInt16 => String::from_str("UINT16"),
        DataTypeRaw::UInt32 => String::from_str("UINT32"),
        DataTypeRaw::UInt64 => String::from_str("UINT64"),
        DataTypeRaw::UInt128 => String::from_str("UINT128"),
        DataTypeRaw::Bool => String::from_str("BOOL"),
        DataTypeRaw::Timestamp => String::from_str("TIMESTAMP"),
        DataTypeRaw::Uuid => String::from_str("UUID"),
        DataTypeRaw::String => String::from_str("STRING"),
    }
}

/// A new identifier for a catalog entry.
fn new_id() -> (r: DataInstance)
    ensures
        r matches DataInstance::Direct(DataInstanceRaw::Uuid(_)),
{
    match Function::Ulid.call() {
        DataInstanceRaw::Uuid(u) => DataInstance::Direct(DataInstanceRaw::Uuid(u)),
        _ => DataInstance::Direct(DataInstanceRaw::Uuid(0)),
    }
}

/// The catalog entries of a new table: its row of `system.tables`
/// `(id, table_name)` and one row of `system.columns`
/// `(id, table_id, raw_type, is_nullable)` per column, the table's name
/// standing for its id. Identifiers are new ULIDs.
pub fn catalog_rows(table: &TableDefinition) -> (r: (Row, Vec<Row>))
    ensures
        r.0.0@.len() == 2,
        r.0.0@[0] matches DataInstance::Direct(DataInstanceRaw::Uuid(_)),
        r.0.0@[1] matches DataInstance::Direct(DataInstanceRaw::String(n)) && n@ == table.name@,
        r.1@.len() == table.columns@.len(),
        forall|i: int|
            0 <= i < r.1@.len() ==> {
                let row = (#[trigger] r.1@[i]).0@;
                &&& row.len() == 4
                &&& row[0] matches DataInstance::Direct(DataInstanceRaw::Uuid(_))
                &&& row[1] matches DataInstance::Direct(DataInstanceRaw::String(n)) && n@
                    == table.name@
                &&& row[2] matches DataInstance::Direct(DataInstanceRaw::String(n)) && n@
                    == raw_type_label(table.columns@[i].data_type.raw_type)
                &&& row[3] == DataInstance::Direct(
                    DataInstanceRaw::Bool(table.columns@[i].data_type.is_nullable),
                )
            },
{
    let table_row = Row(vec![new_id(), DataInstance::Direct(DataInstanceRaw::String(table.name.clone()))]);
    let mut column_rows: Vec<Row> = Vec::new();
    let mut i: usize = 0;
    while i < table.columns.len()
        invariant
            i <= table.columns@.len(),
            column_rows@.len() == i,
            forall|j: int|
                0 <= j < i ==> {
                    let row = (#[trigger] column_rows@[j]).0@;
                    &&& row.len() == 4
                    &&& row[0] matches DataInstance::Direct(DataInstanceRaw::Uuid(_))
                    &&& row[1] matches DataInstance::Direct(DataInstanceRaw::String(n)) && n@
                        == table.name@
                    &&& row[2] matches DataInstance::Direct(DataInstanceRaw::String(n)) && n@
                        == raw_type_label(table.columns@[j].data_type.raw_type)
                    &&& row[3] == DataInstance::Direct(
                        DataInstanceRaw::Bool(table.columns@[j].data_type.is_nullable),
                    )
                },
        decreases table.columns@.len() - i,
    {
        let data_type = table.columns[i].data_type;
        let row = Row(vec![
            new_id(),
            DataInstance::Direct(DataInstanceRaw::String(table.name.clone())),
            DataInstance::Direct(DataInstanceRaw::String(raw_type_label_of(data_type.raw_type))),
            DataInstance::Direct(DataInstanceRaw::Bool(data_type.is_nullable)),
        ]);
        column_rows.push(row);
        i += 1;
    }
    (table_row, column_rows)
}

} // verus!
