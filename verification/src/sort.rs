//! Sort directions. The interface distinguishes numeric, alphabetic and date
//! sorts, but every cell value carries its own ordering, so all six
//! conditions reduce to one comparator and only the direction matters.

use vstd::prelude::*;
use vstd::string::StrSliceExecFns;

use crate::strutil::{lower_char, push_char};
use crate::value::str_eq;

verus! {

broadcast use vstd::seq::Seq::lemma_push_map_commute;


/// How `sort_rows` orders a table.
#[derive(Clone, Copy, Debug, PartialEq, Eq, Structural)]
pub enum SortCondition {
    NumericAscending,
    NumericDescending,
    AlphaAscending,
    AlphaDescending,
    DateAscending,
    DateDescending,
}

/// Whether the condition asks for a descending order.
pub open spec fn sort_descending(sc: SortCondition) -> bool {
    match sc {
        SortCondition::NumericDescending => true,
        SortCondition::AlphaDescending => true,
        SortCondition::DateDescending => true,
        _ => false,
    }
}

impl SortCondition {
    /// Exec mirror of [`sort_descending`].
    pub fn is_descending(&self) -> (r: bool)
        ensures
            r == sort_descending(*self),
    {
        match self {
            SortCondition::NumericDescending => true,
            SortCondition::AlphaDescending => true,
            SortCondition::DateDescending => true,
            _ => false,
        }
    }
}

/// The characters that survive cleaning a sort-condition tag: ASCII
/// whitespace and parentheses are dropped.
pub open spec fn keep_fn() -> spec_fn(char) -> bool {
    |c: char| !(c == ' ' || c == '\t' || c == '\n' || c == '\r' || c == '(' || c == ')')
}

/// A sort-condition tag cleaned for matching: whitespace and parentheses
/// dropped, ASCII letters lowered.
pub open spec fn cleaned(s: Seq<char>) -> Seq<char> {
    s.filter(keep_fn()).map_values(|c: char| lower_char(c))
}

/// The sort condition a tag names, if any.
pub open spec fn sort_condition_of(s: Seq<char>) -> Option<SortCondition> {
    let t = cleaned(s);
    if t == "numeric_ascending"@ {
        Some(SortCondition::NumericAscending)
    } else if t == "numeric_descending"@ {
        Some(SortCondition::NumericDescending)
    } else if t == "alpha_ascending"@ {
        Some(SortCondition::AlphaAscending)
    } else if t == "alpha_descending"@ {
        Some(SortCondition::AlphaDescending)
    } else if t == "date_ascending"@ {
        Some(SortCondition::DateAscending)
    } else if t == "date_descending"@ {
        Some(SortCondition::DateDescending)
    } else {
        None
    }
}

impl SortCondition {
    /// Parses a sort-condition tag, ignoring ASCII case and any whitespace or
    /// parentheses in the input.
    pub fn parse_str(str: &str) -> (r: Option<SortCondition>)
        ensures
            r == sort_condition_of(str@),
    {
        let n = str.unicode_len();
        let mut t = String::new();
        let mut i: usize = 0;
        proof {
            reveal(Seq::filter);
            assert(str@.take(0) =~= Seq::<char>::empty());
            assert(t@ =~= cleaned(str@.take(0)));
        }
        while i < n
            invariant
                i <= n,
                n == str@.len(),
                t@ == cleaned(str@.take(i as int)),
            decreases n - i,
        {
            let c = str.get_char(i);
            proof {
                assert(str@.take(i as int + 1) =~= str@.take(i as int).push(str@[i as int]));
                str@.take(i as int).lemma_filter_push(str@[i as int], keep_fn());
            }
            if !(c == ' ' || c == '\t' || c == '\n' || c == '\r' || c == '(' || c == ')') {
                let lowered = lower_of_char(c);
                push_char(&mut t, lowered);
            }
            proof {
                assert(t@ =~= cleaned(str@.take(i as int + 1)));
            }
            i = i + 1;
        }
        proof {
            assert(str@.take(n as int) =~= str@);
        }
        if str_eq(t.as_str(), "numeric_ascending") {
            Some(SortCondition::NumericAscending)
        } else if str_eq(t.as_str(), "numeric_descending") {
            Some(SortCondition::NumericDescending)
        } else if str_eq(t.as_str(), "alpha_ascending") {
            Some(SortCondition::AlphaAscending)
        } else if str_eq(t.as_str(), "alpha_descending") {
            Some(SortCondition::AlphaDescending)
        } else if str_eq(t.as_str(), "date_ascending") {
            Some(SortCondition::DateAscending)
        } else if str_eq(t.as_str(), "date_descending") {
            Some(SortCondition::DateDescending)
        } else {
            None
        }
    }
}

/// One character, ASCII-lowered.
fn lower_of_char(c: char) -> (r: char)
    ensures
        r == lower_char(c),
{
    if 'A' <= c && c <= 'Z' {
        let v = (c as u32) + 32;
        proof {
            assert(65 <= c as u32 <= 90);
            assert(vstd::utf8::is_scalar(v));
        }
        let u = crate::strutil::char_from_u32(v);
        proof {
            vstd::utf8::char_u32_cast(u, v);
        }
        u
    } else {
        c
    }
}

} // verus!
