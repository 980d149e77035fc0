//! Parameters of the form `key=value`, as a command line hands them over.
//!
//! A value that reads `true` or `false` is a boolean, one that reads as a
//! whole number is an integer, and anything else is left as text for the
//! caller to make sense of.

use std::str::FromStr;
use vstd::prelude::*;
use vstd::string::StrSliceExecFns;

verus! {

/// What the text of a value stands for.
#[derive(Debug)]
pub enum ParameterValue {
    Boolean(bool),
    Integer(i64),
    Text(String),
}

/// `i` is the position of the first `=` in `text`.
pub open spec fn is_first_equals(text: Seq<char>, i: int) -> bool {
    &&& 0 <= i < text.len()
    &&& text[i] == '='
    &&& forall|j: int| 0 <= j < i ==> text[j] != '='
}

/// The position of the first `=` in `param`, counted in characters.
pub fn find_equals(param: &str) -> (found: Option<usize>)
    ensures
        match found {
            Some(i) => is_first_equals(param@, i as int),
            None => forall|j: int| 0 <= j < param@.len() ==> param@[j] != '=',
        },
{
    let n = param.unicode_len();
    let mut i: usize = 0;
    while i < n
        invariant
            0 <= i <= n,
            n == param@.len(),
            forall|j: int| 0 <= j < i ==> param@[j] != '=',
        decreases n - i,
    {
        if param.get_char(i) == '=' {
            return Some(i);
        }
        i += 1;
    }
    None
}

/// Splits `param` at its first `=` into the key before it and the value
/// after it. `None` means that `param` has no `=`.
pub fn split_parameter(param: &str) -> (parts: Option<(String, String)>)
    ensures
        match parts {
            Some((key, value)) => exists|i: int|
                {
                    &&& #[trigger] is_first_equals(param@, i)
                    &&& key@ == param@.subrange(0, i)
                    &&& value@ == param@.subrange(i + 1, param@.len() as int)
                },
            None => forall|j: int| 0 <= j < param@.len() ==> param@[j] != '=',
        },
{
    match find_equals(param) {
        None => None,
        Some(i) => {
            let n = param.unicode_len();
            let key = param.substring_char(0, i).to_owned();
            let value = param.substring_char(i + 1, n).to_owned();
            assert(is_first_equals(param@, i as int));
            Some((key, value))
        },
    }
}

/// The boolean that `text` spells out.
pub open spec fn spec_boolean(text: Seq<char>) -> Option<bool> {
    if text == "true"@ {
        Some(true)
    } else if text == "false"@ {
        Some(false)
    } else {
        None
    }
}

/// The boolean that `text` spells out: `true`, `false`, or none.
pub fn boolean(text: &str) -> (value: Option<bool>)
    ensures
        value == spec_boolean(text@),
{
    if same_text(text, "true") {
        Some(true)
    } else if same_text(text, "false") {
        Some(false)
    } else {
        None
    }
}

/// Whether two texts have the same characters.
pub fn same_text(a: &str, b: &str) -> (same: bool)
    ensures
        same == (a@ == b@),
{
    let n = a.unicode_len();
    if b.unicode_len() != n {
        return false;
    }
    let mut i: usize = 0;
    while i < n
        invariant
            0 <= i <= n,
            n == a@.len(),
            n == b@.len(),
            forall|j: int| 0 <= j < i ==> a@[j] == b@[j],
        decreases n - i,
    {
        if a.get_char(i) != b.get_char(i) {
            return false;
        }
        i += 1;
    }
    assert(a@ =~= b@);
    true
}

/// The whole number that `text` reads as, if it reads as one that a 64-bit
/// integer can hold.
pub uninterp spec fn parsed_integer(text: Seq<char>) -> Option<i64>;

/// `i64::from_str`: the number that `text` reads as in base ten, or `None`
/// where `text` is not a number or the number does not fit.
#[verifier::external_body]
fn integer(text: &str) -> (value: Option<i64>)
    ensures
        value == parsed_integer(text@),
{
    i64::from_str(text).ok()
}

/// What a value stands for, given what it reads as: a boolean before an
/// integer, an integer before text.
pub fn interpret(boolean: Option<bool>, integer: Option<i64>, text: String) -> (value:
    ParameterValue)
    ensures
        value == match (boolean, integer) {
            (Some(b), _) => ParameterValue::Boolean(b),
            (None, Some(n)) => ParameterValue::Integer(n),
            (None, None) => ParameterValue::Text(text),
        },
{
    match (boolean, integer) {
        (Some(b), _) => ParameterValue::Boolean(b),
        (None, Some(n)) => ParameterValue::Integer(n),
        (None, None) => ParameterValue::Text(text),
    }
}

/// What the text of a value stands for.
pub fn parameter_value(text: &str) -> (value: ParameterValue)
    ensures
        match (spec_boolean(text@), parsed_integer(text@)) {
            (Some(b), _) => value == ParameterValue::Boolean(b),
            (None, Some(n)) => value == ParameterValue::Integer(n),
            (None, None) => value matches ParameterValue::Text(kept) && kept@ == text@,
        },
{
    interpret(boolean(text), integer(text), text.to_owned())
}

} // verus!
