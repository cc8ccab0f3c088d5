use vstd::prelude::*;

use crate::error::{bad_request, TCError};
use crate::fs::{FsPath, SegView};
use crate::value::{TCType, Value};

verus! {

/// The context that serves raw block state, rooted at a drive directory.
pub struct BlockContext {
    drive: FsPath,
}

impl BlockContext {
    pub closed spec fn spec_drive(&self) -> Seq<SegView> {
        self.drive@
    }

    pub fn new(drive: FsPath) -> (r: BlockContext)
        ensures
            r.spec_drive() == drive@,
    {
        BlockContext { drive }
    }

    pub fn drive(&self) -> (r: &FsPath)
        ensures
            r@ == self.spec_drive(),
    {
        &self.drive
    }
}

/// A table: named, typed columns with one of them the primary key.
pub struct Table {
    schema: Vec<(String, TCType)>,
    key: (String, TCType),
}

impl Table {
    /// The column names with their types, as contracts see them.
    pub closed spec fn spec_schema(&self) -> Seq<(String, TCType)> {
        self.schema@
    }

    pub closed spec fn spec_key(&self) -> (String, TCType) {
        self.key
    }

    /// The name and type of each column, in schema order.
    pub fn schema_map(&self) -> (r: Vec<(String, TCType)>)
        ensures
            r@.len() == self.spec_schema().len(),
            forall|i: int| 0 <= i < r@.len() ==> (#[trigger] r@[i]).0@ == self.spec_schema(
            )[i].0@ && r@[i].1 == self.spec_schema()[i].1,
    {
        let n = self.schema.len();
        let mut out: Vec<(String, TCType)> = Vec::new();
        for i in 0..n
            invariant
                n == self.spec_schema().len(),
                out@.len() == i,
                forall|j: int| 0 <= j < i ==> (#[trigger] out@[j]).0@ == self.spec_schema(
                )[j].0@ && out@[j].1 == self.spec_schema()[j].1,
        {
            out.push((self.schema[i].0.clone(), self.schema[i].1));
        }
        out
    }

    pub fn key(&self) -> (r: &(String, TCType))
        ensures
            *r == self.spec_key(),
    {
        &self.key
    }
}

/// A request against a table.
#[derive(Clone, Copy, Debug, PartialEq, Eq, Structural)]
pub enum TableRequest {
    Select,
    Insert,
    Update,
    Delete,
}

/// The context that serves tables.
pub struct TableContext {
}

impl TableContext {
    pub fn new() -> (r: TableContext)
    {
        TableContext {  }
    }

    /// Lay out a new table: every named column is kept, and the column
    /// named `key_column` becomes the primary key; a key column the schema
    /// does not name is rejected.
    pub fn new_table(&self, schema: Vec<(String, TCType)>, key_column: &String) -> (r: Result<
        Table,
        TCError,
    >)
        ensures
            r.is_ok() <==> (exists|i: int| 0 <= i < schema@.len() && (#[trigger] schema@[i]).0@
                == key_column@),
            r matches Ok(t) ==> {
                &&& t.spec_schema().len() == schema@.len()
                &&& forall|i: int| 0 <= i < schema@.len() ==> (#[trigger] t.spec_schema()[i]).0@
                    == schema@[i].0@ && t.spec_schema()[i].1 == schema@[i].1
                &&& t.spec_key().0@ == key_column@
            },
            r.is_err() ==> r->Err_0.spec_kind() == crate::error::ErrorKind::BadRequest,
    {
        let n = schema.len();
        let mut valid_columns: Vec<(String, TCType)> = Vec::new();
        let mut key: Option<(String, TCType)> = None;
        for i in 0..n
            invariant
                n == schema@.len(),
                valid_columns@.len() == i,
                forall|j: int| 0 <= j < i ==> (#[trigger] valid_columns@[j]).0@ == schema@[j].0@
                    && valid_columns@[j].1 == schema@[j].1,
                key matches Some(k) ==> k.0@ == key_column@,
                key is Some <==> (exists|j: int| 0 <= j < i && (#[trigger] schema@[j]).0@
                    == key_column@),
        {
            let name = schema[i].0.clone();
            let datatype = schema[i].1;
            valid_columns.push((name.clone(), datatype));
            if name == *key_column {
                key = Some((name, datatype));
            }
        }
        match key {
            Some(key) => Ok(Table { schema: valid_columns, key }),
            None => Err(bad_request("no column was defined for the primary key".to_owned())),
        }
    }
}

/// A piece of state a transaction can hold: a plain value or a table.
pub enum State {
    Value(Value),
    Table(Table),
}

impl State {
    /// Whether this state is a plain value.
    pub fn is_value(&self) -> (r: bool)
        ensures
            r == (self matches State::Value(_)),
    {
        match self {
            State::Value(_) => true,
            _ => false,
        }
    }
}

} // verus!
