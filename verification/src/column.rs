//! A column of a table: its name, its declared type, and whether it is part
//! of the primary key. Columns are created at table construction and only
//! change through the explicit rename and key-flag operations.

use vstd::prelude::*;

use crate::strutil::lower_char;
use crate::value::{str_eq, DataType};

verus! {

/// One column of a table's schema.
#[derive(Debug)]
pub struct Column {
    name: String,
    data_type: DataType,
    is_primary_key: bool,
}

/// The spec-level mirror of a [`Column`].
#[verifier::ext_equal]
pub ghost struct ColModel {
    pub name: Seq<char>,
    pub data_type: DataType,
    pub is_primary_key: bool,
}

impl View for Column {
    type V = ColModel;

    closed spec fn view(&self) -> ColModel {
        ColModel { name: self.name@, data_type: self.data_type, is_primary_key: self.is_primary_key }
    }
}

impl Clone for Column {
    fn clone(&self) -> (res: Self)
        ensures
            res == *self,
    {
        Column {
            name: self.name.clone(),
            data_type: self.data_type,
            is_primary_key: self.is_primary_key,
        }
    }
}

impl Column {
    pub fn new(name: String, data_type: DataType, is_primary_key: bool) -> (c: Column)
        ensures
            c@ == (ColModel { name: name@, data_type, is_primary_key }),
    {
        Column { name, data_type, is_primary_key }
    }

    pub fn get_name(&self) -> (r: &str)
        ensures
            r@ == self@.name,
    {
        self.name.as_str()
    }

    pub fn get_data_type(&self) -> (dt: DataType)
        ensures
            dt == self@.data_type,
    {
        self.data_type
    }

    pub fn is_primary_key(&self) -> (r: bool)
        ensures
            r == self@.is_primary_key,
    {
        self.is_primary_key
    }

    /// Marks or unmarks the column as a primary key.
    pub fn change_pk_state(&mut self, is_pk: bool)
        ensures
            final(self)@ == (ColModel { is_primary_key: is_pk, ..old(self)@ }),
    {
        self.is_primary_key = is_pk;
    }

    /// Renames the column. The caller is responsible for renaming dependent
    /// rows and indexes.
    pub fn new_name(&mut self, new_name: String)
        ensures
            final(self)@ == (ColModel { name: new_name@, ..old(self)@ }),
    {
        self.name = new_name;
    }
}

/// The declared type a tag names; an unknown tag falls back to `Number`, a
/// documented quirk of this engine.
pub open spec fn data_type_of(s: Seq<char>) -> DataType {
    let l = s.map_values(|c: char| lower_char(c));
    if l == "number"@ {
        DataType::Number
    } else if l == "date"@ {
        DataType::Date
    } else if l == "url"@ {
        DataType::Url
    } else if l == "boolean"@ || l == "bool"@ {
        DataType::Boolean
    } else if l == "string"@ || l == "str"@ {
        DataType::String
    } else {
        DataType::Number
    }
}

/// Parses a column-type tag, ignoring ASCII case; unknown tags fall back to
/// `Number`.
pub fn parse_str(str: &str) -> (r: DataType)
    ensures
        r == data_type_of(str@),
{
    let l = crate::strutil::ascii_lower(str);
    if str_eq(l.as_str(), "number") {
        DataType::Number
    } else if str_eq(l.as_str(), "date") {
        DataType::Date
    } else if str_eq(l.as_str(), "url") {
        DataType::Url
    } else if str_eq(l.as_str(), "boolean") || str_eq(l.as_str(), "bool") {
        DataType::Boolean
    } else if str_eq(l.as_str(), "string") || str_eq(l.as_str(), "str") {
        DataType::String
    } else {
        DataType::Number
    }
}

} // verus!
