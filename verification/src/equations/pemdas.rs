//! The text handling of PEMDAS evaluation: turning a sub-expression back into
//! the spaced form that `map_elements` splits.
use vstd::prelude::*;
use crate::equations::bodmas::{space_out_chars, space_out_spec};
use crate::text::{chars_of, string_from_chars};
use crate::utils::element_seperator::subrange_chars;

verus! {

/// Converts `2+3*4` into `2 +3*4`: a space before each `+` or `-` that
/// follows a digit or a closing bracket, so that `map_elements` splits it.
pub fn space_out_operators(expr: &str) -> (r: String)
    ensures
        r@ == space_out_spec(expr@),
{
    let chars = chars_of(expr);
    string_from_chars(&space_out_chars(&chars))
}

/// The sign that a term starts with, as `-1` or `1`, and the term without
/// it; a term with no sign is positive.
pub open spec fn split_sign_spec(s: Seq<char>) -> (i8, Seq<char>) {
    if s.len() > 0 && s[0] == '-' {
        (-1i8, s.drop_first())
    } else if s.len() > 0 && s[0] == '+' {
        (1i8, s.drop_first())
    } else {
        (1i8, s)
    }
}

/// Pulls a leading `+` or `-` off a term: the sign as `-1` or `1`, and the
/// rest of the term.
pub fn split_sign(s: &str) -> (r: (i8, String))
    ensures
        (r.0, r.1@) == split_sign_spec(s@),
{
    let chars = chars_of(s);
    if chars.len() > 0 && (chars[0] == '-' || chars[0] == '+') {
        let sign: i8 = if chars[0] == '-' {
            -1
        } else {
            1
        };
        let rest = subrange_chars(&chars, 1, chars.len());
        assert(rest@ =~= s@.drop_first());
        (sign, string_from_chars(&rest))
    } else {
        (1, string_from_chars(&chars))
    }
}

/// A leading `-` gives the sign `-1` and a leading `+` the sign `1`, each
/// taken off the term; a term that starts with neither keeps all of it and
/// the sign `1`.
pub proof fn lemma_split_sign_cases(x: Seq<char>)
    ensures
        split_sign_spec(seq!['-'] + x) == (-1i8, x),
        split_sign_spec(seq!['+'] + x) == (1i8, x),
        (x.len() == 0 || (x[0] != '+' && x[0] != '-')) ==> split_sign_spec(x) == (1i8, x),
{
    assert((seq!['-'] + x)[0] == '-');
    assert((seq!['-'] + x).drop_first() =~= x);
    assert((seq!['+'] + x)[0] == '+');
    assert((seq!['+'] + x).drop_first() =~= x);
}

} // verus!
