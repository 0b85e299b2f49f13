//! Filter conditions: the closed set of predicates that `select_rows`,
//! `edit_rows` and `delete_rows` evaluate against one column.
//!
//! A condition carries its comparison value as a [`FilterConditionValue`].
//! Ordering comparisons and equality take a `Number`; `NumberBetween` takes a
//! `NumberRange` and `DateBetween` a `DateRange` (both ranges inclusive); the
//! boolean and null checks carry nothing. A condition whose value has any
//! other shape is malformed and every evaluation of it fails with
//! `MisMatchConditionDataType`. A well-shaped condition never fails: a cell
//! of the wrong kind simply does not match.

use vstd::prelude::*;

use crate::errors::DBError;
use crate::value::{FieldValue, Val};

verus! {

/// The comparison value carried by a condition.
#[derive(Debug)]
pub enum FilterConditionValue {
    String(String),
    Number(i64),
    Date(i64),
    /// An inclusive range of numbers.
    NumberRange(i64, i64),
    /// An inclusive range of dates.
    DateRange(i64, i64),
}

/// The spec-level mirror of a [`FilterConditionValue`].
pub ghost enum CondVal {
    String(Seq<char>),
    Number(int),
    Date(int),
    NumberRange(int, int),
    DateRange(int, int),
}

impl View for FilterConditionValue {
    type V = CondVal;

    open spec fn view(&self) -> CondVal {
        match self {
            FilterConditionValue::String(s) => CondVal::String(s@),
            FilterConditionValue::Number(n) => CondVal::Number(*n as int),
            FilterConditionValue::Date(d) => CondVal::Date(*d as int),
            FilterConditionValue::NumberRange(lo, hi) => CondVal::NumberRange(
                *lo as int,
                *hi as int,
            ),
            FilterConditionValue::DateRange(lo, hi) => CondVal::DateRange(*lo as int, *hi as int),
        }
    }
}

impl Clone for FilterConditionValue {
    fn clone(&self) -> (res: Self)
        ensures
            res == *self,
    {
        match self {
            FilterConditionValue::String(s) => FilterConditionValue::String(s.clone()),
            FilterConditionValue::Number(n) => FilterConditionValue::Number(*n),
            FilterConditionValue::Date(d) => FilterConditionValue::Date(*d),
            FilterConditionValue::NumberRange(lo, hi) => FilterConditionValue::NumberRange(
                *lo,
                *hi,
            ),
            FilterConditionValue::DateRange(lo, hi) => FilterConditionValue::DateRange(*lo, *hi),
        }
    }
}

/// A predicate over one column.
#[derive(Debug)]
pub enum FilterCondition {
    LessThan(FilterConditionValue),
    LessThanOrEqualTo(FilterConditionValue),
    GreaterThan(FilterConditionValue),
    GreaterThanOrEqualTo(FilterConditionValue),
    Equal(FilterConditionValue),
    NotEqual(FilterConditionValue),
    True,
    False,
    Null,
    NotNull,
    /// Inclusive range check over numbers.
    NumberBetween(FilterConditionValue),
    /// Inclusive range check over dates.
    DateBetween(FilterConditionValue),
}

/// The spec-level mirror of a [`FilterCondition`].
pub ghost enum Cond {
    LessThan(CondVal),
    LessThanOrEqualTo(CondVal),
    GreaterThan(CondVal),
    GreaterThanOrEqualTo(CondVal),
    Equal(CondVal),
    NotEqual(CondVal),
    True,
    False,
    Null,
    NotNull,
    NumberBetween(CondVal),
    DateBetween(CondVal),
}

impl View for FilterCondition {
    type V = Cond;

    open spec fn view(&self) -> Cond {
        match self {
            FilterCondition::LessThan(v) => Cond::LessThan(v@),
            FilterCondition::LessThanOrEqualTo(v) => Cond::LessThanOrEqualTo(v@),
            FilterCondition::GreaterThan(v) => Cond::GreaterThan(v@),
            FilterCondition::GreaterThanOrEqualTo(v) => Cond::GreaterThanOrEqualTo(v@),
            FilterCondition::Equal(v) => Cond::Equal(v@),
            FilterCondition::NotEqual(v) => Cond::NotEqual(v@),
            FilterCondition::True => Cond::True,
            FilterCondition::False => Cond::False,
            FilterCondition::Null => Cond::Null,
            FilterCondition::NotNull => Cond::NotNull,
            FilterCondition::NumberBetween(v) => Cond::NumberBetween(v@),
            FilterCondition::DateBetween(v) => Cond::DateBetween(v@),
        }
    }
}

impl Clone for FilterCondition {
    fn clone(&self) -> (res: Self)
        ensures
            res == *self,
    {
        match self {
            FilterCondition::LessThan(v) => FilterCondition::LessThan(v.clone()),
            FilterCondition::LessThanOrEqualTo(v) => FilterCondition::LessThanOrEqualTo(v.clone()),
            FilterCondition::GreaterThan(v) => FilterCondition::GreaterThan(v.clone()),
            FilterCondition::GreaterThanOrEqualTo(v) => FilterCondition::GreaterThanOrEqualTo(
                v.clone(),
            ),
            FilterCondition::Equal(v) => FilterCondition::Equal(v.clone()),
            FilterCondition::NotEqual(v) => FilterCondition::NotEqual(v.clone()),
            FilterCondition::True => FilterCondition::True,
            FilterCondition::False => FilterCondition::False,
            FilterCondition::Null => FilterCondition::Null,
            FilterCondition::NotNull => FilterCondition::NotNull,
            FilterCondition::NumberBetween(v) => FilterCondition::NumberBetween(v.clone()),
            FilterCondition::DateBetween(v) => FilterCondition::DateBetween(v.clone()),
        }
    }
}

/// Whether a condition carries a value of the right shape. Evaluating a
/// malformed condition fails with `MisMatchConditionDataType`.
pub open spec fn cond_ok(c: Cond) -> bool {
    match c {
        Cond::LessThan(v) => v is Number,
        Cond::LessThanOrEqualTo(v) => v is Number,
        Cond::GreaterThan(v) => v is Number,
        Cond::GreaterThanOrEqualTo(v) => v is Number,
        Cond::Equal(v) => v is Number,
        Cond::NotEqual(v) => v is Number,
        Cond::NumberBetween(v) => v is NumberRange,
        Cond::DateBetween(v) => v is DateRange,
        Cond::True => true,
        Cond::False => true,
        Cond::Null => true,
        Cond::NotNull => true,
    }
}

/// What it means for a cell value to satisfy a well-shaped condition.
/// The ordering comparisons and the equality checks match numeric cells only;
/// a cell of any other kind (including `Null`) does not match them.
pub open spec fn cond_matches(v: Val, c: Cond) -> bool
    recommends
        cond_ok(c),
{
    match c {
        Cond::LessThan(CondVal::Number(n)) => v matches Val::Number(x) && x < n,
        Cond::LessThanOrEqualTo(CondVal::Number(n)) => v matches Val::Number(x) && x <= n,
        Cond::GreaterThan(CondVal::Number(n)) => v matches Val::Number(x) && x > n,
        Cond::GreaterThanOrEqualTo(CondVal::Number(n)) => v matches Val::Number(x) && x >= n,
        Cond::Equal(CondVal::Number(n)) => v == Val::Number(n),
        Cond::NotEqual(CondVal::Number(n)) => v matches Val::Number(x) && x != n,
        Cond::True => v == Val::Boolean(true),
        Cond::False => v == Val::Boolean(false),
        Cond::Null => v == Val::Null,
        Cond::NotNull => v != Val::Null,
        Cond::NumberBetween(CondVal::NumberRange(lo, hi)) => v matches Val::Number(x) && lo <= x
            && x <= hi,
        Cond::DateBetween(CondVal::DateRange(lo, hi)) => v matches Val::Date(x) && lo <= x && x
            <= hi,
        _ => false,
    }
}

/// Whether an index can answer this condition. `NotEqual` and `NotNull` are
/// not index-accelerated and always fall back to a full scan.
pub open spec fn index_supported(c: Cond) -> bool {
    !(c is NotEqual || c is NotNull)
}

/// Exec mirror of [`index_supported`].
pub fn condition_index_supported(c: &FilterCondition) -> (r: bool)
    ensures
        r == index_supported(c@),
{
    match c {
        FilterCondition::NotEqual(_) => false,
        FilterCondition::NotNull => false,
        _ => true,
    }
}

/// Evaluates a condition against one cell, as the full-scan path does for
/// every row. Fails exactly when the condition is malformed (see
/// [`cond_ok`]); the error carries the expected shape and the actual value.
pub fn non_index_row_matches_search_critieria(
    row_value: &FieldValue,
    search_criteria: &FilterCondition,
) -> (r: Result<bool, DBError>)
    ensures
        cond_ok(search_criteria@) ==> (r matches Ok(b) && b == cond_matches(
            row_value@,
            search_criteria@,
        )),
        !cond_ok(search_criteria@) ==> (r matches Err(e) && e matches
            DBError::MisMatchConditionDataType(_, _)),
{
    match search_criteria {
        FilterCondition::LessThan(cv) => match cv {
            FilterConditionValue::Number(n) => match row_value {
                FieldValue::Number(x) => Ok(*x < *n),
                _ => Ok(false),
            },
            _ => Err(bad_condition_number(cv)),
        },
        FilterCondition::LessThanOrEqualTo(cv) => match cv {
            FilterConditionValue::Number(n) => match row_value {
                FieldValue::Number(x) => Ok(*x <= *n),
                _ => Ok(false),
            },
            _ => Err(bad_condition_number(cv)),
        },
        FilterCondition::GreaterThan(cv) => match cv {
            FilterConditionValue::Number(n) => match row_value {
                FieldValue::Number(x) => Ok(*x > *n),
                _ => Ok(false),
            },
            _ => Err(bad_condition_number(cv)),
        },
        FilterCondition::GreaterThanOrEqualTo(cv) => match cv {
            FilterConditionValue::Number(n) => match row_value {
                FieldValue::Number(x) => Ok(*x >= *n),
                _ => Ok(false),
            },
            _ => Err(bad_condition_number(cv)),
        },
        FilterCondition::Equal(cv) => match cv {
            FilterConditionValue::Number(n) => match row_value {
                FieldValue::Number(x) => Ok(*x == *n),
                _ => Ok(false),
            },
            _ => Err(bad_condition_number(cv)),
        },
        FilterCondition::NotEqual(cv) => match cv {
            FilterConditionValue::Number(n) => match row_value {
                FieldValue::Number(x) => Ok(*x != *n),
                _ => Ok(false),
            },
            _ => Err(bad_condition_number(cv)),
        },
        FilterCondition::True => Ok(row_value.are_equal(&FieldValue::Boolean(true))),
        FilterCondition::False => Ok(row_value.are_equal(&FieldValue::Boolean(false))),
        FilterCondition::Null => Ok(row_value.are_equal(&FieldValue::Null)),
        FilterCondition::NotNull => Ok(!row_value.are_equal(&FieldValue::Null)),
        FilterCondition::NumberBetween(cv) => match cv {
            FilterConditionValue::NumberRange(lo, hi) => match row_value {
                FieldValue::Number(x) => Ok(*lo <= *x && *x <= *hi),
                _ => Ok(false),
            },
            _ => Err(
                DBError::MisMatchConditionDataType(
                    FilterConditionValue::NumberRange(0, 0),
                    cv.clone(),
                ),
            ),
        },
        FilterCondition::DateBetween(cv) => match cv {
            FilterConditionValue::DateRange(lo, hi) => match row_value {
                FieldValue::Date(x) => Ok(*lo <= *x && *x <= *hi),
                _ => Ok(false),
            },
            _ => Err(
                DBError::MisMatchConditionDataType(
                    FilterConditionValue::DateRange(0, 0),
                    cv.clone(),
                ),
            ),
        },
    }
}

/// The error for an ordering or equality condition whose value is not a
/// number.
fn bad_condition_number(actual: &FilterConditionValue) -> (e: DBError)
    ensures
        e matches DBError::MisMatchConditionDataType(_, _),
{
    DBError::MisMatchConditionDataType(FilterConditionValue::Number(-1), actual.clone())
}

} // verus!
