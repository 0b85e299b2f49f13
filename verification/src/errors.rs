//! The closed set of engine errors. Every schema, type, or index failure is
//! returned to the caller through [`DBError`]; nothing is swallowed or
//! retried.

use vstd::prelude::*;

use crate::filter::FilterConditionValue;
use crate::value::DataType;

verus! {

/// An engine failure.
#[derive(Debug)]
pub enum DBError {
    /// An operation needed a primary key and the table has none.
    PrimaryKeyRequired,
    /// An inserted row left out these primary-key columns.
    MissingPrimaryKeys(Vec<String>),
    /// A cell's kind does not fit its column: expected, then actual.
    MisMatchDataType(DataType, DataType),
    /// No column of this name exists in the table.
    InvalidColumn(String),
    /// A new row repeats a value already present in this primary-key column.
    DuplicatePrimaryKey(String),
    /// The named column is a primary key and cannot be dropped or overwritten.
    MandatoryColumn(String),
    /// An error involving the table's persisted form, carrying its path.
    DataBaseFileFailure(String),
    /// The operation is not supported, with a short description.
    ActionNotImplemented(String),
    /// A filter condition carried a value of the wrong shape: expected, then
    /// actual.
    MisMatchConditionDataType(FilterConditionValue, FilterConditionValue),
    /// An error involving a persisted index: file name, then detail.
    IOFailure(String, String),
}

} // verus!
