//! Interpretation of interactive yes/no answers.

use vstd::prelude::*;
use vstd::string::StringExecFns;
use crate::error::SkError;

verus! {

/// What `str::to_lowercase` returns on a given character sequence.
pub uninterp spec fn lower_of(s: Seq<char>) -> Seq<char>;

/// Relies on `str::to_lowercase` of std: the lowercase form is a function
/// of the characters of the input alone.
#[verifier::external_body]
fn to_lowercase_string(s: &str) -> (r: String)
    ensures
        r@ == lower_of(s@),
{
    s.to_lowercase()
}

/// Read a yes/no answer, ignoring letter case: `Ok(true)` exactly for
/// `yes`/`y`, `Ok(false)` exactly for `no`/`n`, and an error for anything
/// else.
pub fn is_yes(input: &str) -> (r: Result<bool, SkError>)
    ensures
        match r {
            Ok(b) => {
                &&& b == (lower_of(input@) == "yes"@ || lower_of(input@) == "y"@)
                &&& (b || lower_of(input@) == "no"@ || lower_of(input@) == "n"@)
            },
            Err(e) => {
                &&& e == SkError::InvalidInput
                &&& lower_of(input@) != "yes"@
                &&& lower_of(input@) != "y"@
                &&& lower_of(input@) != "no"@
                &&& lower_of(input@) != "n"@
            },
        },
{
    let low = to_lowercase_string(input);
    if low == String::from_str("yes") || low == String::from_str("y") {
        Ok(true)
    } else if low == String::from_str("no") || low == String::from_str("n") {
        Ok(false)
    } else {
        Err(SkError::InvalidInput)
    }
}

} // verus!
