//! The catalog: built-in tables that describe the user's tables.

use crate::components::{ColumnDefinition, DataType, TableDefinition};
use crate::tokenizer::DataTypeRaw;
use vstd::prelude::*;
use vstd::string::*;

verus! {

/// Schema that holds the built-in tables.
pub const SYSTEM_SCHEMA_NAME: &'static str = "system";

/// The built-in tables.
#[derive(Debug, PartialEq, Eq, Clone, Copy, Structural)]
pub enum SystemTable {
    Tables,
    Columns,
}

fn column(name: &str, raw_type: DataTypeRaw, primary_key: bool) -> (r: ColumnDefinition)
    ensures
        r.name@ == name@,
        r.data_type == (DataType { raw_type, is_nullable: false }),
        r.primary_key == primary_key,
        r.default is None,
{
    ColumnDefinition {
        name: String::from_str(name),
        data_type: DataType { raw_type, is_nullable: false },
        primary_key,
        default: None,
    }
}

impl SystemTable {
    /// All built-in tables.
    pub fn all() -> (r: Vec<SystemTable>)
        ensures
            r@ == seq![SystemTable::Tables, SystemTable::Columns],
    {
        let r = vec![SystemTable::Tables, SystemTable::Columns];
        proof {
            assert(r@ =~= seq![SystemTable::Tables, SystemTable::Columns]);
        }
        r
    }

    /// `system.tables` is `(id UUID PRIMARY KEY, table_name STRING)`;
    /// `system.columns` is `(id UUID PRIMARY KEY, table_id STRING, raw_type STRING,
    /// is_nullable BOOL)`. No column is nullable.
    pub fn get_definition(&self) -> (r: TableDefinition)
        ensures
            r.columns@.len() == match self {
                SystemTable::Tables => 2int,
                SystemTable::Columns => 4int,
            },
            r.name@ == match self {
                SystemTable::Tables => "tables"@,
                SystemTable::Columns => "columns"@,
            },
            r.columns@[0].name@ == "id"@,
            r.columns@[0].data_type.raw_type == DataTypeRaw::Uuid,
            forall|i: int| 0 <= i < r.columns@.len() ==> (#[trigger] r.columns@[i]).primary_key == (i == 0),
            forall|i: int|
                0 <= i < r.columns@.len() ==> !(#[trigger] r.columns@[i]).data_type.is_nullable
                    && r.columns@[i].default is None,
            match self {
                SystemTable::Tables => r.columns@[1].name@ == "table_name"@
                    && r.columns@[1].data_type.raw_type == DataTypeRaw::String,
                SystemTable::Columns => r.columns@[1].name@ == "table_id"@
                    && r.columns@[1].data_type.raw_type == DataTypeRaw::String
                    && r.columns@[2].name@ == "raw_type"@ && r.columns@[2].data_type.raw_type
                    == DataTypeRaw::String && r.columns@[3].name@ == "is_nullable"@
                    && r.columns@[3].data_type.raw_type == DataTypeRaw::Bool,
            },
    {
        match self {
            SystemTable::Tables => {
                let columns = vec![
                    column("id", DataTypeRaw::Uuid, true),
                    column("table_name", DataTypeRaw::String, false),
                ];
                TableDefinition { name: String::from_str("tables"), columns }
            },
            SystemTable::Columns => {
                let columns = vec![
                    column("id", DataTypeRaw::Uuid, true),
                    column("table_id", DataTypeRaw::String, false),
                    column("raw_type", DataTypeRaw::String, false),
                    column("is_nullable", DataTypeRaw::Bool, false),
                ];
                TableDefinition { name: String::from_str("columns"), columns }
            },
        }
    }
}

} // verus!
