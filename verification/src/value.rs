//! The tagged cell type: a `FieldValue` is one cell of a table. Numbers and
//! dates are 64-bit signed integers (a date is a UTC timestamp in seconds),
//! strings and URLs carry their text, and `Null` stands for an absent value.
//!
//! Contracts speak about cells through the spec-level mirror [`Val`], the view
//! of a `FieldValue`, whose text fields are character sequences.

use vstd::prelude::*;
use vstd::string::StrSliceExecFns;

use crate::errors::DBError;

verus! {

/// The declared type of a column.
#[derive(Clone, Copy, Debug, PartialEq, Eq, Structural)]
pub enum DataType {
    String,
    Number,
    Date,
    Url,
    Boolean,
}

/// One cell of a row.
#[derive(Debug, PartialEq)]
pub enum FieldValue {
    String(String),
    Number(i64),
    Date(i64),
    Url(String),
    Boolean(bool),
    Null,
}

/// The mathematical value of a cell: what the contracts talk about.
pub ghost enum Val {
    String(Seq<char>),
    Number(int),
    Date(int),
    Url(Seq<char>),
    Boolean(bool),
    Null,
}

impl View for FieldValue {
    type V = Val;

    open spec fn view(&self) -> Val {
        match self {
            FieldValue::String(s) => Val::String(s@),
            FieldValue::Number(n) => Val::Number(*n as int),
            FieldValue::Date(d) => Val::Date(*d as int),
            FieldValue::Url(u) => Val::Url(u@),
            FieldValue::Boolean(b) => Val::Boolean(*b),
            FieldValue::Null => Val::Null,
        }
    }
}

impl Clone for FieldValue {
    fn clone(&self) -> (res: Self)
        ensures
            res == *self,
    {
        match self {
            FieldValue::String(s) => FieldValue::String(s.clone()),
            FieldValue::Number(n) => FieldValue::Number(*n),
            FieldValue::Date(d) => FieldValue::Date(*d),
            FieldValue::Url(u) => FieldValue::Url(u.clone()),
            FieldValue::Boolean(b) => FieldValue::Boolean(*b),
            FieldValue::Null => FieldValue::Null,
        }
    }
}

/// Lexicographic order on character sequences, by code point.
pub open spec fn lex_le(a: Seq<char>, b: Seq<char>) -> bool
    decreases a.len(),
{
    if a.len() == 0 {
        true
    } else if b.len() == 0 {
        false
    } else if a[0] == b[0] {
        lex_le(a.drop_first(), b.drop_first())
    } else {
        (a[0] as u32) < (b[0] as u32)
    }
}

/// The position of a value's kind in the total fallback order:
/// `Null < Boolean < Number < Date < String < Url`.
pub open spec fn val_rank(v: Val) -> int {
    match v {
        Val::Null => 0,
        Val::Boolean(_) => 1,
        Val::Number(_) => 2,
        Val::Date(_) => 3,
        Val::String(_) => 4,
        Val::Url(_) => 5,
    }
}

/// Whether two values are of the same kind, and hence comparable by the
/// natural partial order.
pub open spec fn same_kind(a: Val, b: Val) -> bool {
    val_rank(a) == val_rank(b)
}

/// The engine's total fallback order on cell values: by kind rank first, then
/// by the natural order within one kind. Sorting and join preparation use
/// this order; it is documented behaviour that values of different kinds sort
/// by their kind.
pub open spec fn val_le(a: Val, b: Val) -> bool {
    if val_rank(a) != val_rank(b) {
        val_rank(a) < val_rank(b)
    } else {
        match (a, b) {
            (Val::Null, Val::Null) => true,
            (Val::Boolean(x), Val::Boolean(y)) => !x || y,
            (Val::Number(x), Val::Number(y)) => x <= y,
            (Val::Date(x), Val::Date(y)) => x <= y,
            (Val::String(x), Val::String(y)) => lex_le(x, y),
            (Val::Url(x), Val::Url(y)) => lex_le(x, y),
            _ => false,
        }
    }
}

/// Three-way comparison along [`val_le`].
pub open spec fn val_cmp(a: Val, b: Val) -> core::cmp::Ordering {
    if a == b {
        core::cmp::Ordering::Equal
    } else if val_le(a, b) {
        core::cmp::Ordering::Less
    } else {
        core::cmp::Ordering::Greater
    }
}

/// The lexicographic order is total.
pub proof fn lemma_lex_le_total(a: Seq<char>, b: Seq<char>)
    ensures
        lex_le(a, b) || lex_le(b, a),
    decreases a.len(),
{
    if a.len() != 0 && b.len() != 0 {
        if a[0] == b[0] {
            lemma_lex_le_total(a.drop_first(), b.drop_first());
        } else {
            vstd::utf8::char_u32_cast(a[0], a[0] as u32);
            vstd::utf8::char_u32_cast(b[0], b[0] as u32);
            assert((a[0] as u32) != (b[0] as u32));
        }
    }
}

/// The lexicographic order is transitive.
pub proof fn lemma_lex_le_trans(a: Seq<char>, b: Seq<char>, c: Seq<char>)
    requires
        lex_le(a, b),
        lex_le(b, c),
    ensures
        lex_le(a, c),
    decreases a.len(),
{
    if a.len() != 0 && b.len() != 0 && c.len() != 0 && a[0] == b[0] && b[0] == c[0] {
        lemma_lex_le_trans(a.drop_first(), b.drop_first(), c.drop_first());
    }
}

/// The lexicographic order is antisymmetric.
pub proof fn lemma_lex_le_antisym(a: Seq<char>, b: Seq<char>)
    requires
        lex_le(a, b),
        lex_le(b, a),
    ensures
        a == b,
    decreases a.len(),
{
    if a.len() == 0 {
        assert(b.len() == 0);
        assert(a =~= b);
    } else {
        assert(b.len() != 0);
        assert(a[0] == b[0]);
        lemma_lex_le_antisym(a.drop_first(), b.drop_first());
        assert(a.len() == b.len());
        assert forall|i: int| 0 <= i < a.len() implies a[i] == b[i] by {
            if i >= 1 {
                assert(a[i] == a.drop_first()[i - 1]);
                assert(b[i] == b.drop_first()[i - 1]);
            }
        }
        assert(a =~= b);
    }
}

/// The fallback order on values is total.
pub proof fn lemma_val_le_total(a: Val, b: Val)
    ensures
        val_le(a, b) || val_le(b, a),
{
    match (a, b) {
        (Val::String(x), Val::String(y)) => lemma_lex_le_total(x, y),
        (Val::Url(x), Val::Url(y)) => lemma_lex_le_total(x, y),
        _ => {},
    }
}

/// The fallback order on values is transitive.
pub proof fn lemma_val_le_trans(a: Val, b: Val, c: Val)
    requires
        val_le(a, b),
        val_le(b, c),
    ensures
        val_le(a, c),
{
    match (a, b, c) {
        (Val::String(x), Val::String(y), Val::String(z)) => lemma_lex_le_trans(x, y, z),
        (Val::Url(x), Val::Url(y), Val::Url(z)) => lemma_lex_le_trans(x, y, z),
        _ => {},
    }
}

/// The fallback order on values is antisymmetric.
pub proof fn lemma_val_le_antisym(a: Val, b: Val)
    requires
        val_le(a, b),
        val_le(b, a),
    ensures
        a == b,
{
    match (a, b) {
        (Val::String(x), Val::String(y)) => lemma_lex_le_antisym(x, y),
        (Val::Url(x), Val::Url(y)) => lemma_lex_le_antisym(x, y),
        _ => {},
    }
}

/// Whether one string precedes another in the lexicographic order.
pub fn str_le(a: &str, b: &str) -> (r: bool)
    ensures
        r == lex_le(a@, b@),
{
    let alen = a.unicode_len();
    let blen = b.unicode_len();
    let mut i: usize = 0;
    proof {
        assert(a@.skip(0) =~= a@);
        assert(b@.skip(0) =~= b@);
    }
    loop
        invariant
            i <= alen,
            i <= blen,
            alen == a@.len(),
            blen == b@.len(),
            lex_le(a@, b@) == lex_le(a@.skip(i as int), b@.skip(i as int)),
        decreases alen - i,
    {
        if i == alen {
            return true;
        }
        if i == blen {
            return false;
        }
        let ca = a.get_char(i);
        let cb = b.get_char(i);
        proof {
            assert(a@.skip(i as int)[0] == a@[i as int]);
            assert(b@.skip(i as int)[0] == b@[i as int]);
            assert(a@.skip(i as int).drop_first() =~= a@.skip(i as int + 1));
            assert(b@.skip(i as int).drop_first() =~= b@.skip(i as int + 1));
        }
        if ca != cb {
            return (ca as u32) < (cb as u32);
        }
        i = i + 1;
    }
}

/// Whether two strings hold the same characters.
pub fn str_eq(a: &str, b: &str) -> (r: bool)
    ensures
        r == (a@ == b@),
{
    match str_compare(a, b) {
        core::cmp::Ordering::Equal => true,
        _ => false,
    }
}

/// Three-way lexicographic comparison of two strings.
pub fn str_compare(a: &str, b: &str) -> (r: core::cmp::Ordering)
    ensures
        (r == core::cmp::Ordering::Equal) == (a@ == b@),
        (r == core::cmp::Ordering::Less) == (a@ != b@ && lex_le(a@, b@)),
        (r == core::cmp::Ordering::Greater) == (a@ != b@ && !lex_le(a@, b@)),
{
    let le_ab = str_le(a, b);
    let le_ba = str_le(b, a);
    proof {
        lemma_lex_le_total(a@, b@);
        if le_ab && le_ba {
            lemma_lex_le_antisym(a@, b@);
        }
    }
    if le_ab && le_ba {
        core::cmp::Ordering::Equal
    } else if le_ab {
        core::cmp::Ordering::Less
    } else {
        core::cmp::Ordering::Greater
    }
}

/// The error that an undefined ordering comparison reports: the expected
/// kind is `Number`, the actual kind is the other side of the comparison.
pub open spec fn ordering_mismatch(a: Val, b: Val) -> DBError {
    if val_data_type(a) == DataType::Number {
        DBError::MisMatchDataType(DataType::Number, val_data_type(b))
    } else {
        DBError::MisMatchDataType(DataType::Number, val_data_type(a))
    }
}

/// The declared type that a cell value belongs to. `Null` counts as `Number`,
/// a documented quirk of this engine; type checks treat `Null` as acceptable
/// in any column, so the quirk only shows through this function.
pub open spec fn val_data_type(v: Val) -> DataType {
    match v {
        Val::String(_) => DataType::String,
        Val::Number(_) => DataType::Number,
        Val::Date(_) => DataType::Date,
        Val::Url(_) => DataType::Url,
        Val::Boolean(_) => DataType::Boolean,
        Val::Null => DataType::Number,
    }
}

/// Whether a cell value may sit in a column of declared type `dt`:
/// the kinds must agree, except that `Null` is accepted everywhere.
pub open spec fn val_fits(v: Val, dt: DataType) -> bool {
    v is Null || val_data_type(v) == dt
}

impl FieldValue {
    /// The declared type this cell belongs to (`Null` counts as `Number`).
    pub fn data_type(&self) -> (dt: DataType)
        ensures
            dt == val_data_type(self@),
    {
        match self {
            FieldValue::String(_) => DataType::String,
            FieldValue::Number(_) => DataType::Number,
            FieldValue::Date(_) => DataType::Date,
            FieldValue::Url(_) => DataType::Url,
            FieldValue::Boolean(_) => DataType::Boolean,
            FieldValue::Null => DataType::Number,
        }
    }

    pub fn is_number(&self) -> (r: bool)
        ensures
            r == (self@ is Number),
    {
        match self {
            FieldValue::Number(_) => true,
            _ => false,
        }
    }

    pub fn is_date(&self) -> (r: bool)
        ensures
            r == (self@ is Date),
    {
        match self {
            FieldValue::Date(_) => true,
            _ => false,
        }
    }

    /// Compares two cells of the same kind; `Null` compares equal to `Null`.
    /// Cells of different kinds are incomparable and fail with
    /// `MisMatchDataType` (expected kind first, actual kind second).
    pub fn compare_to(&self, other: &FieldValue) -> (r: Result<core::cmp::Ordering, DBError>)
        ensures
            same_kind(self@, other@) ==> (r matches Ok(o) && o == val_cmp(self@, other@)),
            !same_kind(self@, other@) ==> (r matches Err(e) && e == (
            DBError::MisMatchDataType(val_data_type(self@), val_data_type(other@)))),
    {
        match (self, other) {
            (FieldValue::String(a), FieldValue::String(b)) => Ok(str_compare(a.as_str(), b.as_str())),
            (FieldValue::Number(a), FieldValue::Number(b)) => {
                if *a < *b {
                    Ok(core::cmp::Ordering::Less)
                } else if *a == *b {
                    Ok(core::cmp::Ordering::Equal)
                } else {
                    Ok(core::cmp::Ordering::Greater)
                }
            },
            (FieldValue::Date(a), FieldValue::Date(b)) => {
                if *a < *b {
                    Ok(core::cmp::Ordering::Less)
                } else if *a == *b {
                    Ok(core::cmp::Ordering::Equal)
                } else {
                    Ok(core::cmp::Ordering::Greater)
                }
            },
            (FieldValue::Url(a), FieldValue::Url(b)) => Ok(str_compare(a.as_str(), b.as_str())),
            (FieldValue::Boolean(a), FieldValue::Boolean(b)) => {
                if *a == *b {
                    Ok(core::cmp::Ordering::Equal)
                } else if *b {
                    Ok(core::cmp::Ordering::Less)
                } else {
                    Ok(core::cmp::Ordering::Greater)
                }
            },
            (FieldValue::Null, FieldValue::Null) => Ok(core::cmp::Ordering::Equal),
            _ => Err(DBError::MisMatchDataType(self.data_type(), other.data_type())),
        }
    }

    /// Orders two cells by the engine's total fallback order: first by kind
    /// (`Null < Boolean < Number < Date < String < Url`), then by the natural
    /// order within the kind. On same-kind cells this agrees with
    /// [`FieldValue::compare_to`].
    pub fn total_le(&self, other: &FieldValue) -> (r: bool)
        ensures
            r == val_le(self@, other@),
    {
        let ra = self.kind_rank();
        let rb = other.kind_rank();
        if ra != rb {
            ra < rb
        } else {
            match (self, other) {
                (FieldValue::String(a), FieldValue::String(b)) => str_le(a.as_str(), b.as_str()),
                (FieldValue::Number(a), FieldValue::Number(b)) => *a <= *b,
                (FieldValue::Date(a), FieldValue::Date(b)) => *a <= *b,
                (FieldValue::Url(a), FieldValue::Url(b)) => str_le(a.as_str(), b.as_str()),
                (FieldValue::Boolean(a), FieldValue::Boolean(b)) => !*a || *b,
                _ => true,
            }
        }
    }

    /// The position of this cell's kind in the total fallback order.
    pub fn kind_rank(&self) -> (r: u8)
        ensures
            r as int == val_rank(self@),
    {
        match self {
            FieldValue::Null => 0,
            FieldValue::Boolean(_) => 1,
            FieldValue::Number(_) => 2,
            FieldValue::Date(_) => 3,
            FieldValue::String(_) => 4,
            FieldValue::Url(_) => 5,
        }
    }

    /// Whether this cell is strictly below `other`. Defined for two numbers
    /// or two dates; any other pairing fails with `MisMatchDataType`.
    pub fn is_less_than(&self, other: &FieldValue) -> (r: Result<bool, DBError>)
        ensures
            r == match (self@, other@) {
                (Val::Number(x), Val::Number(y)) => Ok::<bool, DBError>(x < y),
                (Val::Date(x), Val::Date(y)) => Ok::<bool, DBError>(x < y),
                _ => Err::<bool, DBError>(ordering_mismatch(self@, other@)),
            },
    {
        match (self, other) {
            (FieldValue::Number(a), FieldValue::Number(b)) => Ok(*a < *b),
            (FieldValue::Date(a), FieldValue::Date(b)) => Ok(*a < *b),
            _ => Err(self.comparison_error(other)),
        }
    }

    /// Whether this cell is at most `other`. Defined for two numbers only.
    pub fn is_leq(&self, other: &FieldValue) -> (r: Result<bool, DBError>)
        ensures
            r == match (self@, other@) {
                (Val::Number(x), Val::Number(y)) => Ok::<bool, DBError>(x <= y),
                _ => Err::<bool, DBError>(ordering_mismatch(self@, other@)),
            },
    {
        match (self, other) {
            (FieldValue::Number(a), FieldValue::Number(b)) => Ok(*a <= *b),
            _ => Err(self.comparison_error(other)),
        }
    }

    /// Whether this cell is strictly above `other`. Defined for two numbers
    /// or two dates; any other pairing fails with `MisMatchDataType`.
    pub fn is_greater_than(&self, other: &FieldValue) -> (r: Result<bool, DBError>)
        ensures
            r == match (self@, other@) {
                (Val::Number(x), Val::Number(y)) => Ok::<bool, DBError>(x > y),
                (Val::Date(x), Val::Date(y)) => Ok::<bool, DBError>(x > y),
                _ => Err::<bool, DBError>(ordering_mismatch(self@, other@)),
            },
    {
        match (self, other) {
            (FieldValue::Number(a), FieldValue::Number(b)) => Ok(*a > *b),
            (FieldValue::Date(a), FieldValue::Date(b)) => Ok(*a > *b),
            _ => Err(self.comparison_error(other)),
        }
    }

    /// Whether this cell is at least `other`. Defined for two numbers only.
    pub fn is_geq(&self, other: &FieldValue) -> (r: Result<bool, DBError>)
        ensures
            r == match (self@, other@) {
                (Val::Number(x), Val::Number(y)) => Ok::<bool, DBError>(x >= y),
                _ => Err::<bool, DBError>(ordering_mismatch(self@, other@)),
            },
    {
        match (self, other) {
            (FieldValue::Number(a), FieldValue::Number(b)) => Ok(*a >= *b),
            _ => Err(self.comparison_error(other)),
        }
    }

    /// Whether this numeric cell lies in the inclusive range `[o1, o2]`.
    /// Fails with `MisMatchDataType` when the cell is not a number.
    pub fn is_between(&self, o1: i64, o2: i64) -> (r: Result<bool, DBError>)
        ensures
            r == match self@ {
                Val::Number(x) => Ok::<bool, DBError>(o1 as int <= x && x <= o2 as int),
                _ => Err::<bool, DBError>(
                    DBError::MisMatchDataType(DataType::Number, val_data_type(self@)),
                ),
            },
    {
        match self {
            FieldValue::Number(x) => Ok(o1 <= *x && *x <= o2),
            _ => Err(DBError::MisMatchDataType(DataType::Number, self.data_type())),
        }
    }

    /// Whether this date cell lies strictly between the dates `o1` and `o2`.
    /// Fails with `MisMatchDataType` when the cell is not a date.
    pub fn date_is_between(&self, o1: i64, o2: i64) -> (r: Result<bool, DBError>)
        ensures
            r == match self@ {
                Val::Date(x) => Ok::<bool, DBError>((o1 as int) < x && x < o2 as int),
                _ => Err::<bool, DBError>(
                    DBError::MisMatchDataType(DataType::Date, val_data_type(self@)),
                ),
            },
    {
        match self {
            FieldValue::Date(x) => Ok(o1 < *x && *x < o2),
            _ => Err(DBError::MisMatchDataType(DataType::Date, self.data_type())),
        }
    }

    /// The mismatch error for an undefined comparison, naming `Number` as the
    /// expected kind when this cell is a number, and as the fallback
    /// otherwise.
    fn comparison_error(&self, other: &FieldValue) -> (e: DBError)
        ensures
            e == ordering_mismatch(self@, other@),
    {
        if self.data_type() == DataType::Number {
            DBError::MisMatchDataType(DataType::Number, other.data_type())
        } else {
            DBError::MisMatchDataType(DataType::Number, self.data_type())
        }
    }

    /// Whether two cells hold the same value. Values of different kinds are
    /// never equal; `Null` equals only `Null`.
    pub fn are_equal(&self, other: &FieldValue) -> (r: bool)
        ensures
            r == (self@ == other@),
    {
        match (self, other) {
            (FieldValue::String(a), FieldValue::String(b)) => *a == *b,
            (FieldValue::Number(a), FieldValue::Number(b)) => *a == *b,
            (FieldValue::Date(a), FieldValue::Date(b)) => *a == *b,
            (FieldValue::Url(a), FieldValue::Url(b)) => *a == *b,
            (FieldValue::Boolean(a), FieldValue::Boolean(b)) => *a == *b,
            (FieldValue::Null, FieldValue::Null) => true,
            _ => false,
        }
    }
}

} // verus!
