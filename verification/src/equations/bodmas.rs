//! The text handling of BODMAS evaluation: turning the inside of a bracket
//! back into the spaced form that `map_elements` splits.
use vstd::prelude::*;
use crate::text::{chars_of, string_from_chars};
use crate::utils::element_seperator::{
    lemma_parse_equation_only_spaces, lemma_without_spaces_concat, lemma_without_spaces_single,
    parse_equation_spec, without_spaces,
};

verus! {

/// A character after which `+` or `-` is a binary operator: a digit or a
/// closing bracket.
pub open spec fn ends_operand(c: char) -> bool {
    ('0' <= c && c <= '9') || c == ')' || c == ']'
}

/// `s` with a space put in front of every binary `+` and `-`, that is, one
/// that follows a digit or a closing bracket.
pub open spec fn space_out_spec(s: Seq<char>) -> Seq<char>
    decreases s.len(),
{
    if s.len() == 0 {
        s
    } else {
        let prev = space_out_spec(s.drop_last());
        let c = s.last();
        if s.len() > 1 && (c == '+' || c == '-') && ends_operand(s[s.len() - 2]) {
            prev.push(' ').push(c)
        } else {
            prev.push(c)
        }
    }
}

pub fn space_out_chars(chars: &Vec<char>) -> (r: Vec<char>)
    ensures
        r@ == space_out_spec(chars@),
{
    let mut result: Vec<char> = Vec::new();
    let mut i: usize = 0;
    while i < chars.len()
        invariant
            i <= chars.len(),
            result@ == space_out_spec(chars@.take(i as int)),
        decreases chars.len() - i,
    {
        let ghost prefix = chars@.take(i + 1);
        assert(prefix.drop_last() =~= chars@.take(i as int));
        let c = chars[i];
        if i > 0 && (c == '+' || c == '-') {
            let prev = chars[i - 1];
            assert(prefix[prefix.len() - 2] == prev);
            if ('0' <= prev && prev <= '9') || prev == ')' || prev == ']' {
                result.push(' ');
            }
        }
        result.push(c);
        i = i + 1;
    }
    assert(chars@.take(chars.len() as int) =~= chars@);
    result
}

/// Converts the inside of a bracket such as `4-8` or `2*3+5` into the spaced
/// form `4 -8`, `2*3 +5` that `map_elements` splits into terms.
pub fn space_out_expression(expr: &str) -> (r: String)
    ensures
        r@ == space_out_spec(expr@),
{
    let chars = chars_of(expr);
    string_from_chars(&space_out_chars(&chars))
}

/// Spacing out changes nothing but spaces: with the spaces removed, its
/// result is its input with the spaces removed.
pub proof fn lemma_space_out_only_spaces(s: Seq<char>)
    ensures
        without_spaces(space_out_spec(s)) == without_spaces(s),
    decreases s.len(),
{
    if s.len() > 0 {
        lemma_space_out_only_spaces(s.drop_last());
        let prev = space_out_spec(s.drop_last());
        let c = s.last();
        lemma_without_spaces_concat(s.drop_last(), seq![c]);
        assert(s.drop_last() + seq![c] =~= s);
        lemma_without_spaces_single(c);
        if s.len() > 1 && (c == '+' || c == '-') && ends_operand(s[s.len() - 2]) {
            lemma_without_spaces_concat(prev, seq![' ', c]);
            assert(prev.push(' ').push(c) =~= prev + seq![' ', c]);
            lemma_without_spaces_concat(seq![' '], seq![c]);
            assert(seq![' '] + seq![c] =~= seq![' ', c]);
            lemma_without_spaces_single(' ');
            assert(Seq::<char>::empty() + seq![c] =~= seq![c]);
        } else {
            lemma_without_spaces_concat(prev, seq![c]);
            assert(prev.push(c) =~= prev + seq![c]);
        }
    }
}

/// Spacing out is invisible to `parse_equation`, which `map_elements`
/// applies: both texts clean up to the same text.
pub proof fn lemma_space_out_then_parse(s: Seq<char>)
    ensures
        parse_equation_spec(space_out_spec(s)) == parse_equation_spec(s),
{
    lemma_space_out_only_spaces(s);
}

proof fn lemma_space_out_last(s: Seq<char>)
    requires
        s.len() > 0,
    ensures
        space_out_spec(s).len() > 0,
        space_out_spec(s).last() == s.last(),
{
}

/// Spacing out is idempotent: text it gave back comes back unchanged.
pub proof fn lemma_space_out_idempotent(s: Seq<char>)
    ensures
        space_out_spec(space_out_spec(s)) == space_out_spec(s),
    decreases s.len(),
{
    if s.len() > 0 {
        lemma_space_out_idempotent(s.drop_last());
        let p = space_out_spec(s.drop_last());
        let c = s.last();
        if s.len() > 1 {
            lemma_space_out_last(s.drop_last());
            assert(p.last() == s[s.len() - 2]);
        } else {
            assert(p.len() == 0);
        }
        if s.len() > 1 && (c == '+' || c == '-') && ends_operand(s[s.len() - 2]) {
            let q = p.push(' ');
            assert(q.drop_last() =~= p);
            assert(q.push(c).drop_last() =~= q);
            assert(space_out_spec(q) == space_out_spec(p).push(' '));
            assert(space_out_spec(q.push(c)) == space_out_spec(q).push(c));
        } else {
            assert(p.push(c).drop_last() =~= p);
            if p.len() > 0 {
                assert(p.push(c)[p.push(c).len() - 2] == p.last());
            }
        }
    }
}

/// Spacing out works character by character and inserts only before a sign:
/// a `+` or `-` written right after a digit, `)` or `]` gets one space in
/// front of it; every other character, and the first one, is copied as it
/// is.
pub proof fn lemma_space_out_step(x: Seq<char>, d: char, c: char)
    ensures
        space_out_spec(seq![c]) == seq![c],
        (c == '+' || c == '-') && (('0' <= d && d <= '9') || d == ')' || d == ']')
            ==> space_out_spec(x.push(d).push(c)) == space_out_spec(x.push(d)).push(' ').push(c),
        !((c == '+' || c == '-') && (('0' <= d && d <= '9') || d == ')' || d == ']'))
            ==> space_out_spec(x.push(d).push(c)) == space_out_spec(x.push(d)).push(c),
{
    let one = seq![c];
    assert(one.drop_last() =~= Seq::<char>::empty());
    assert(one.last() == c);
    assert(Seq::<char>::empty().push(c) =~= one);
    assert(space_out_spec(one.drop_last()) =~= Seq::<char>::empty());
    assert(space_out_spec(one) == space_out_spec(one.drop_last()).push(c));
    let y = x.push(d).push(c);
    assert(y.drop_last() =~= x.push(d));
    assert(y[y.len() - 2] == d);
}

} // verus!
