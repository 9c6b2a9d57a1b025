//! Values, types and definitions of columns and tables.

use crate::errors::ValidationError;
use crate::text::decimal;
use crate::text::decimal_string;
use crate::tokenizer::{DataTypeRaw, Function};
use vstd::prelude::*;
use vstd::string::*;

verus! {

/// A primitive type with a nullability flag.
#[derive(Debug, PartialEq, Eq, Clone, Copy, Structural)]
pub struct DataType {
    pub raw_type: DataTypeRaw,
    pub is_nullable: bool,
}

/// A value of a primitive type. A timestamp is in signed seconds since the Unix
/// epoch; a UUID is its 16 bytes read as a big-endian integer.
#[derive(Debug, PartialEq, Eq, Clone)]
pub enum DataInstanceRaw {
    UInt8(u8),
    UInt16(u16),
    UInt32(u32),
    UInt64(u64),
    UInt128(u128),
    Bool(bool),
    Timestamp(i64),
    Uuid(u128),
    String(String),
}

/// A value of a column: `Direct` in a non-nullable column, `Nullable` or `Null`
/// in a nullable one.
#[derive(Debug, PartialEq, Eq, Clone)]
pub enum DataInstance {
    Direct(DataInstanceRaw),
    Nullable(DataInstanceRaw),
    Null,
}

/// Where a value comes from: a constant, a function call or another column.
#[derive(Debug, PartialEq, Eq, Clone)]
pub enum DataDefinition {
    Const(DataInstance),
    FunctionCall(Function),
    Identifier(String),
}

/// A condition or a value of a statement.
#[derive(Debug, PartialEq, Eq)]
pub enum Expression {
    Atom(DataDefinition),
    Equal(Box<Expression>, Box<Expression>),
}

#[derive(Debug, PartialEq, Eq, Clone)]
pub struct ColumnDefinition {
    pub name: String,
    pub data_type: DataType,
    pub primary_key: bool,
    pub default: Option<DataDefinition>,
}

#[derive(Debug, PartialEq, Eq, Clone)]
pub struct TableDefinition {
    /// Table name.
    pub name: String,
    /// Column definitions, in the order of the columns on disk.
    pub columns: Vec<ColumnDefinition>,
}

/// The type that a raw value has.
pub open spec fn raw_type_of(v: DataInstanceRaw) -> DataTypeRaw {
    match v {
        DataInstanceRaw::UInt8(_) => DataTypeRaw::UInt8,
        DataInstanceRaw::UInt16(_) => DataTypeRaw::UInt16,
        DataInstanceRaw::UInt32(_) => DataTypeRaw::UInt32,
        DataInstanceRaw::UInt64(_) => DataTypeRaw::UInt64,
        DataInstanceRaw::UInt128(_) => DataTypeRaw::UInt128,
        DataInstanceRaw::Bool(_) => DataTypeRaw::Bool,
        DataInstanceRaw::Timestamp(_) => DataTypeRaw::Timestamp,
        DataInstanceRaw::Uuid(_) => DataTypeRaw::Uuid,
        DataInstanceRaw::String(_) => DataTypeRaw::String,
    }
}

/// `v` is a value of a column of type `t`.
pub open spec fn conforms(v: DataInstance, t: DataType) -> bool {
    match v {
        DataInstance::Direct(raw) => !t.is_nullable && raw_type_of(raw) == t.raw_type,
        DataInstance::Nullable(raw) => t.is_nullable && raw_type_of(raw) == t.raw_type,
        DataInstance::Null => t.is_nullable,
    }
}

/// Number of primary-key columns among the first `n` columns.
pub open spec fn primary_key_count(columns: Seq<ColumnDefinition>, n: int) -> nat
    decreases n,
{
    if n <= 0 {
        0
    } else {
        primary_key_count(columns, n - 1) + if columns[n - 1].primary_key {
            1nat
        } else {
            0nat
        }
    }
}

/// No two columns share a name.
pub open spec fn names_unique(columns: Seq<ColumnDefinition>) -> bool {
    forall|i: int, j: int|
        0 <= i < j < columns.len() ==> (#[trigger] columns[i]).name@ != (#[trigger] columns[j]).name@
}

/// A table definition that can be stored: it has a name and at least one column,
/// its columns have names and distinct ones, and exactly one is the primary key.
pub open spec fn table_is_valid(t: TableDefinition) -> bool {
    &&& t.name@.len() > 0
    &&& t.columns@.len() > 0
    &&& forall|i: int| 0 <= i < t.columns@.len() ==> (#[trigger] t.columns@[i]).name@.len() > 0
    &&& names_unique(t.columns@)
    &&& primary_key_count(t.columns@, t.columns@.len() as int) == 1
}

impl ColumnDefinition {
    /// A column must have a name.
    pub fn validate(&self) -> (r: Result<(), ValidationError>)
        ensures
            r is Ok <==> self.name@.len() > 0,
    {
        if self.name.as_str().is_empty() {
            return Err(ValidationError(String::from_str("A column must have a name")));
        }
        Ok(())
    }
}

proof fn lemma_primary_key_count_bounded(columns: Seq<ColumnDefinition>, n: int)
    ensures
        primary_key_count(columns, n) <= if n < 0 {
            0
        } else {
            n
        },
    decreases n,
{
    if n > 0 {
        lemma_primary_key_count_bounded(columns, n - 1);
    }
}

fn same_string(a: &String, b: &String) -> (r: bool)
    ensures
        r == (a@ == b@),
{
    a.eq(b)
}

impl TableDefinition {
    pub fn new(name: String, columns: Vec<ColumnDefinition>) -> (r: Self)
        ensures
            r.name == name,
            r.columns == columns,
    {
        TableDefinition { name, columns }
    }

    /// Index of the primary-key column: the first column marked as such.
    pub fn primary_key_index(&self) -> (r: Option<usize>)
        ensures
            match r {
                Some(i) => i < self.columns@.len() && self.columns@[i as int].primary_key && forall|
                    j: int,
                | 0 <= j < i ==> !(#[trigger] self.columns@[j]).primary_key,
                None => forall|j: int|
                    0 <= j < self.columns@.len() ==> !(#[trigger] self.columns@[j]).primary_key,
            },
    {
        let mut i: usize = 0;
        while i < self.columns.len()
            invariant
                i <= self.columns@.len(),
                forall|j: int| 0 <= j < i ==> !(#[trigger] self.columns@[j]).primary_key,
            decreases self.columns@.len() - i,
        {
            if self.columns[i].primary_key {
                return Some(i);
            }
            i += 1;
        }
        None
    }

    /// The primary-key column. A table without one has no rows to key.
    pub fn get_primary_key(&self) -> (r: &ColumnDefinition)
        requires
            exists|j: int| 0 <= j < self.columns@.len() && (#[trigger] self.columns@[j]).primary_key,
        ensures
            r.primary_key,
            exists|j: int| 0 <= j < self.columns@.len() && self.columns@[j] == *r,
    {
        match self.primary_key_index() {
            Some(i) => &self.columns[i],
            None => {
                proof {
                    let j = choose|j: int|
                        0 <= j < self.columns@.len() && (#[trigger] self.columns@[j]).primary_key;
                    assert(!self.columns@[j].primary_key);
                }
                &self.columns[0]
            },
        }
    }

    /// Checks that the definition can be stored: see `table_is_valid`.
    pub fn validate(&self) -> (r: Result<(), ValidationError>)
        ensures
            r is Ok <==> table_is_valid(*self),
            ({
                let n = self.columns@.len() as int;
                self.name@.len() > 0 && n > 0 && (forall|i: int|
                    0 <= i < n ==> (#[trigger] self.columns@[i]).name@.len() > 0) && names_unique(
                    self.columns@,
                ) && primary_key_count(self.columns@, n) != 1 ==> (r matches Err(e) && e.0@
                    == "A table must have exactly 1 PRIMARY KEY column, not "@ + decimal(
                    primary_key_count(self.columns@, n),
                ))
            }),
    {
        if self.name.as_str().is_empty() {
            return Err(ValidationError(String::from_str("A table must have a name")));
        }
        if self.columns.len() == 0 {
            return Err(ValidationError(String::from_str("A table must have at least one column")));
        }
        let mut primary_key_total: usize = 0;
        let mut i: usize = 0;
        while i < self.columns.len()
            invariant
                i <= self.columns@.len(),
                self.name@.len() > 0,
                primary_key_total as nat == primary_key_count(self.columns@, i as int),
                forall|j: int| 0 <= j < i ==> (#[trigger] self.columns@[j]).name@.len() > 0,
                forall|a: int, b: int|
                    0 <= a < b < i ==> (#[trigger] self.columns@[a]).name@ != (#[trigger] self.columns@[b]).name@,
            decreases self.columns@.len() - i,
        {
            let column = &self.columns[i];
            let mut k: usize = 0;
            while k < i
                invariant
                    i < self.columns@.len(),
                    k <= i,
                    *column == self.columns@[i as int],
                    forall|a: int| 0 <= a < k ==> (#[trigger] self.columns@[a]).name@ != self.columns@[i as int].name@,
                decreases i - k,
            {
                if same_string(&self.columns[k].name, &column.name) {
                    let message = String::from_str("There is more than one column with name `").concat(
                        column.name.as_str(),
                    ).concat("` in table definition");
                    proof {
                        assert(!names_unique(self.columns@)) by {
                            assert(self.columns@[k as int].name@ == self.columns@[i as int].name@);
                        }
                    }
                    return Err(ValidationError(message));
                }
                k += 1;
            }
            proof {
                lemma_primary_key_count_bounded(self.columns@, i as int);
            }
            if column.primary_key {
                primary_key_total += 1;
            }
            if column.validate().is_err() {
                let message = String::from_str("Problem at column ").concat(
                    decimal_string(i + 1).as_str(),
                ).concat(": A column must have a name");
                return Err(ValidationError(message));
            }
            i += 1;
        }
        if primary_key_total != 1 {
            let message = String::from_str("A table must have exactly 1 PRIMARY KEY column, not ").concat(
                decimal_string(primary_key_total).as_str(),
            );
            return Err(ValidationError(message));
        }
        Ok(())
    }
}

} // verus!
