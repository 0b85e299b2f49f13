//! The small pieces of the paged storage layer that are plain computation:
//! its column-type tags, its error type, the byte packing of record sizes,
//! and the bitmap index over a boolean column. The file and page handling
//! around them performs I/O and lives outside the engine.

use vstd::prelude::*;

use crate::strutil::{ascii_lower, lower_char};
use crate::value::str_eq;

verus! {

/// The cell types of the paged storage layer.
#[derive(Clone, Copy, Debug, PartialEq, Eq, Structural)]
#[allow(non_camel_case_types)]
pub enum ColumnType {
    NUMBER,
    FLOAT,
    STRING,
    BOOLEAN,
}

/// The column type that a lowercased tag names, if any.
pub open spec fn column_type_of(s: Seq<char>) -> Option<ColumnType> {
    let l = s.map_values(|c: char| lower_char(c));
    if l == "number"@ || l == "num"@ {
        Some(ColumnType::NUMBER)
    } else if l == "float"@ {
        Some(ColumnType::FLOAT)
    } else if l == "string"@ || l == "str"@ {
        Some(ColumnType::STRING)
    } else if l == "boolean"@ || l == "bool"@ {
        Some(ColumnType::BOOLEAN)
    } else {
        None
    }
}

impl ColumnType {
    /// Parses a type tag, ignoring ASCII case.
    pub fn from_str(s: &str) -> (r: Option<ColumnType>)
        ensures
            r == column_type_of(s@),
    {
        let l = ascii_lower(s);
        if str_eq(l.as_str(), "number") || str_eq(l.as_str(), "num") {
            Some(ColumnType::NUMBER)
        } else if str_eq(l.as_str(), "float") {
            Some(ColumnType::FLOAT)
        } else if str_eq(l.as_str(), "string") || str_eq(l.as_str(), "str") {
            Some(ColumnType::STRING)
        } else if str_eq(l.as_str(), "boolean") || str_eq(l.as_str(), "bool") {
            Some(ColumnType::BOOLEAN)
        } else {
            None
        }
    }
}

/// A failure of the storage layer.
#[derive(Debug)]
pub enum DatabaseError {
    /// The file or directory involved, then the operation that failed.
    IoError(String, String),
}

/// Splits a record size into its two bytes, high byte first.
pub fn u16_to_u8(data: u16) -> (r: (u8, u8))
    ensures
        r.0 == data / 256,
        r.1 == data % 256,
        r.0 as int * 256 + r.1 as int == data as int,
{
    let byte_1: u8 = (data >> 8) as u8;
    let byte_2: u8 = (data & 0xFF) as u8;
    proof {
        assert(data >> 8 == data / 256) by (bit_vector);
        assert(data & 0xFF == data % 256) by (bit_vector);
    }
    (byte_1, byte_2)
}

/// Reassembles a record size from its two bytes, high byte first.
pub fn u8_to_u16(byte_1: u8, byte_2: u8) -> (r: u16)
    ensures
        r as int == byte_1 as int * 256 + byte_2 as int,
{
    let hi = byte_1 as u16;
    proof {
        assert(hi < 256 ==> (hi << 8) == hi * 256) by (bit_vector);
        assert(hi < 256);
    }
    let shifted = hi << 8;
    shifted + byte_2 as u16
}

/// A bitmap index over one boolean column: one bit per row position.
#[derive(Debug)]
pub struct BitmapIndex {
    pub index: Vec<bool>,
}

impl BitmapIndex {
    /// The bit stored for one row position, if the position is in range.
    pub fn search(&self, row_index_in_table: usize) -> (r: Option<bool>)
        ensures
            row_index_in_table < self.index@.len() ==> r == Some(
                self.index@[row_index_in_table as int],
            ),
            row_index_in_table >= self.index@.len() ==> r is None,
    {
        if row_index_in_table < self.index.len() {
            Some(self.index[row_index_in_table])
        } else {
            None
        }
    }
}

} // verus!
