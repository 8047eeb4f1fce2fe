//! The computing part of linear-equation solving: finding the one variable
//! letter that an equation's variable terms use.
use vstd::prelude::*;
use crate::text::{char_is_alphabetic, chars_of, is_alphabetic, string_from_chars};
use crate::utils::element_seperator::{
    clean_spec, elements_view, identify_spec, is_mappable, kind_name, left_of_equals,
    map_elements, right_of_equals, Element, ElementKind,
};

verus! {

/// The alphabetic characters of `s`, in order.
pub open spec fn alphabetic_chars(s: Seq<char>) -> Seq<char>
    decreases s.len(),
{
    if s.len() == 0 {
        Seq::empty()
    } else if is_alphabetic(s[0]) {
        seq![s[0]] + alphabetic_chars(s.drop_first())
    } else {
        alphabetic_chars(s.drop_first())
    }
}

/// The alphabetic characters of the terms named `"Variable"`, in order.
pub open spec fn variable_letters(terms: Seq<(Seq<char>, Seq<char>)>) -> Seq<char>
    decreases terms.len(),
{
    if terms.len() == 0 {
        Seq::empty()
    } else if terms[0].1 == kind_name(ElementKind::Variable) {
        alphabetic_chars(terms[0].0) + variable_letters(terms.drop_first())
    } else {
        variable_letters(terms.drop_first())
    }
}

/// Reads letters one by one, keeping the first: `Err` with the first letter
/// and the first letter that differs from it, if there is one.
pub open spec fn scan_letters(first: Option<char>, s: Seq<char>) -> Result<
    Option<char>,
    (char, char),
>
    decreases s.len(),
{
    if s.len() == 0 {
        Ok(first)
    } else {
        match first {
            None => scan_letters(Some(s[0]), s.drop_first()),
            Some(v) => if v == s[0] {
                scan_letters(first, s.drop_first())
            } else {
                Err((v, s[0]))
            },
        }
    }
}

/// The letters of the variable terms of an equation: those of its left side,
/// then those of its right side.
pub open spec fn equation_letters(equation: Seq<char>) -> Seq<char> {
    let c = clean_spec(equation);
    if c.contains('=') {
        variable_letters(identify_spec(left_of_equals(c))) + variable_letters(
            identify_spec(right_of_equals(c)),
        )
    } else {
        variable_letters(identify_spec(c))
    }
}

proof fn lemma_scan_concat(first: Option<char>, a: Seq<char>, b: Seq<char>)
    ensures
        scan_letters(first, a + b) == match scan_letters(first, a) {
            Ok(f) => scan_letters(f, b),
            Err(e) => Err(e),
        },
    decreases a.len(),
{
    if a.len() == 0 {
        assert(a + b =~= b);
    } else {
        assert((a + b)[0] == a[0]);
        assert((a + b).drop_first() =~= a.drop_first() + b);
        match first {
            None => lemma_scan_concat(Some(a[0]), a.drop_first(), b),
            Some(v) => if v == a[0] {
                lemma_scan_concat(first, a.drop_first(), b);
            },
        }
    }
}

fn scan_side(elements: &Vec<Element>, first: Option<char>) -> (r: Result<Option<char>, (char, char)>)
    ensures
        r == scan_letters(first, variable_letters(elements_view(elements@))),
{
    let ghost terms = elements_view(elements@);
    let ghost target = scan_letters(first, variable_letters(terms));
    let variable_name = ElementKind::Variable.name();
    let mut state = first;
    let mut k: usize = 0;
    assert(terms.skip(0) =~= terms);
    while k < elements.len()
        invariant
            k <= elements.len(),
            terms == elements_view(elements@),
            target == scan_letters(first, variable_letters(terms)),
            variable_name@ == kind_name(ElementKind::Variable),
            scan_letters(state, variable_letters(terms.skip(k as int))) == target,
        decreases elements.len() - k,
    {
        let e = &elements[k];
        assert(terms[k as int] == (e.value@, e.element_type@));
        assert(terms.skip(k as int)[0] == terms[k as int]);
        assert(terms.skip(k as int).drop_first() =~= terms.skip(k + 1));
        if e.element_type == variable_name {
            let ghost rest = variable_letters(terms.skip(k + 1));
            let chars = chars_of(e.value.as_str());
            let mut j: usize = 0;
            assert(chars@.skip(0) =~= chars@);
            while j < chars.len()
                invariant
                    j <= chars.len(),
                    target == scan_letters(first, variable_letters(elements_view(elements@))),
                    scan_letters(state, alphabetic_chars(chars@.skip(j as int)) + rest) == target,
                decreases chars.len() - j,
            {
                let c = chars[j];
                let ghost tail = chars@.skip(j as int);
                assert(tail[0] == c);
                assert(tail.drop_first() =~= chars@.skip(j + 1));
                if char_is_alphabetic(c) {
                    let ghost after = alphabetic_chars(chars@.skip(j + 1)) + rest;
                    assert(seq![c] + alphabetic_chars(chars@.skip(j + 1)) + rest =~= seq![c]
                        + after);
                    assert((seq![c] + after)[0] == c);
                    assert((seq![c] + after).drop_first() =~= after);
                    assert(alphabetic_chars(tail) == seq![c] + alphabetic_chars(chars@.skip(j + 1)));
                    assert(alphabetic_chars(tail) + rest == seq![c] + after);
                    match state {
                        None => {
                            state = Some(c);
                        },
                        Some(v) => {
                            if v != c {
                                assert(scan_letters(state, seq![c] + after) == Err::<Option<char>, (char, char)>((v, c)));
                                return Err((v, c));
                            }
                        },
                    }
                }
                j = j + 1;
            }
            assert(chars@.skip(chars.len() as int) =~= Seq::<char>::empty());
            assert(alphabetic_chars(Seq::<char>::empty()) + rest =~= rest);
        }
        k = k + 1;
    }
    assert(terms.skip(elements.len() as int) =~= Seq::<(Seq<char>, Seq<char>)>::empty());
    Ok(state)
}

/// Finds the letter of the variable that an equation's variable terms use:
/// `Ok` with that letter, or with no letter where there is none, and
/// `Err` with the first letter and the first other letter where they use two.
/// Two letters are refused with this error value rather than a panic; the
/// command-line program turns it into the panic "Multiple variables found:
/// {first} and {other}".
pub fn extract_variable_coefficient(eq: &str) -> (r: Result<String, (char, char)>)
    requires
        is_mappable(eq@),
    ensures
        scan_letters(None, equation_letters(eq@)) matches Ok(v) ==> (r matches Ok(s) && s@
            == match v {
            Some(letter) => seq![letter],
            None => Seq::<char>::empty(),
        }),
        scan_letters(None, equation_letters(eq@)) matches Err(e) ==> r == Err::<String, (
            char,
            char,
        )>(e),
{
    let map = map_elements(eq);
    let ghost c = clean_spec(eq@);
    let left = scan_side(&map.left_side, None);
    let letters = match left {
        Err(e) => {
            proof {
                if c.contains('=') {
                    lemma_scan_concat(
                        None,
                        variable_letters(identify_spec(left_of_equals(c))),
                        variable_letters(identify_spec(right_of_equals(c))),
                    );
                }
            }
            return Err(e);
        },
        Ok(state) => match &map.right_side {
            Some(right) => {
                proof {
                    lemma_scan_concat(
                        None,
                        variable_letters(identify_spec(left_of_equals(c))),
                        variable_letters(identify_spec(right_of_equals(c))),
                    );
                }
                scan_side(right, state)
            },
            None => Ok(state),
        },
    };
    match letters {
        Err(e) => Err(e),
        Ok(Some(v)) => {
            let one = vec![v];
            let s = string_from_chars(&one);
            assert(one@ =~= seq![v]);
            Ok(s)
        },
        Ok(None) => Ok(String::new()),
    }
}

/// `c` is an alphabetic character of a term named `"Variable"`.
pub open spec fn is_term_letter(terms: Seq<(Seq<char>, Seq<char>)>, c: char) -> bool {
    exists|k: int, m: int|
        0 <= k < terms.len() && terms[k].1 == kind_name(ElementKind::Variable) && 0 <= m
            < terms[k].0.len() && #[trigger] terms[k].0[m] == c && is_alphabetic(c)
}

/// `c` is an alphabetic character of a variable term on either side of the
/// equation (or of the expression, where there is no `=`).
pub open spec fn is_equation_letter(equation: Seq<char>, c: char) -> bool {
    let cl = clean_spec(equation);
    if cl.contains('=') {
        is_term_letter(identify_spec(left_of_equals(cl)), c) || is_term_letter(
            identify_spec(right_of_equals(cl)),
            c,
        )
    } else {
        is_term_letter(identify_spec(cl), c)
    }
}

proof fn lemma_alphabetic_chars_contains(s: Seq<char>, c: char)
    ensures
        alphabetic_chars(s).contains(c) <==> (exists|m: int|
            0 <= m < s.len() && #[trigger] s[m] == c && is_alphabetic(c)),
    decreases s.len(),
{
    if s.len() > 0 {
        lemma_alphabetic_chars_contains(s.drop_first(), c);
        let rest = alphabetic_chars(s.drop_first());
        if alphabetic_chars(s).contains(c) {
            if is_alphabetic(s[0]) {
                let i = choose|i: int| 0 <= i < (seq![s[0]] + rest).len() && (seq![s[0]] + rest)[i] == c;
                if i == 0 {
                    assert(s[0] == c);
                } else {
                    assert(rest[i - 1] == c);
                    let m = choose|m: int|
                        0 <= m < s.drop_first().len() && #[trigger] s.drop_first()[m] == c
                            && is_alphabetic(c);
                    assert(s[m + 1] == c);
                }
            } else {
                let m = choose|m: int|
                    0 <= m < s.drop_first().len() && #[trigger] s.drop_first()[m] == c
                        && is_alphabetic(c);
                assert(s[m + 1] == c);
            }
        }
        if exists|m: int| 0 <= m < s.len() && #[trigger] s[m] == c && is_alphabetic(c) {
            let m = choose|m: int| 0 <= m < s.len() && #[trigger] s[m] == c && is_alphabetic(c);
            if m == 0 {
                assert((seq![s[0]] + rest)[0] == c);
            } else {
                assert(s.drop_first()[m - 1] == c);
                let i = choose|i: int| 0 <= i < rest.len() && rest[i] == c;
                if is_alphabetic(s[0]) {
                    assert((seq![s[0]] + rest)[i + 1] == c);
                }
            }
        }
    }
}

proof fn lemma_variable_letters_contains(terms: Seq<(Seq<char>, Seq<char>)>, c: char)
    ensures
        variable_letters(terms).contains(c) <==> is_term_letter(terms, c),
    decreases terms.len(),
{
    if terms.len() > 0 {
        let tail = terms.drop_first();
        lemma_variable_letters_contains(tail, c);
        lemma_alphabetic_chars_contains(terms[0].0, c);
        let head: Seq<char> = if terms[0].1 == kind_name(ElementKind::Variable) {
            alphabetic_chars(terms[0].0)
        } else {
            Seq::empty()
        };
        let rest = variable_letters(tail);
        assert(variable_letters(terms) =~= head + rest);
        if variable_letters(terms).contains(c) {
            let i = choose|i: int| 0 <= i < (head + rest).len() && (head + rest)[i] == c;
            if i < head.len() {
                assert(head[i] == c);
                let m = choose|m: int|
                    0 <= m < terms[0].0.len() && #[trigger] terms[0].0[m] == c && is_alphabetic(c);
                assert(terms[0].0[m] == c);
            } else {
                assert(rest[i - head.len()] == c);
                let (k, m) = choose|k: int, m: int|
                    0 <= k < tail.len() && tail[k].1 == kind_name(ElementKind::Variable) && 0 <= m
                        < tail[k].0.len() && #[trigger] tail[k].0[m] == c && is_alphabetic(c);
                assert(tail[k] == terms[k + 1]);
                assert(terms[k + 1].0[m] == c);
            }
        }
        if is_term_letter(terms, c) {
            let (k, m) = choose|k: int, m: int|
                0 <= k < terms.len() && terms[k].1 == kind_name(ElementKind::Variable) && 0 <= m
                    < terms[k].0.len() && #[trigger] terms[k].0[m] == c && is_alphabetic(c);
            if k == 0 {
                assert(terms[0].0[m] == c);
                let i = choose|i: int| 0 <= i < head.len() && head[i] == c;
                assert((head + rest)[i] == c);
            } else {
                assert(tail[k - 1] == terms[k]);
                assert(tail[k - 1].0[m] == c);
                assert(is_term_letter(tail, c));
                let i = choose|i: int| 0 <= i < rest.len() && rest[i] == c;
                assert((head + rest)[i + head.len()] == c);
            }
        }
    }
}

proof fn lemma_scan_from_letter(v: char, s: Seq<char>)
    ensures
        (forall|i: int| 0 <= i < s.len() ==> #[trigger] s[i] == v) ==> scan_letters(Some(v), s)
            == Ok::<Option<char>, (char, char)>(Some(v)),
        !(forall|i: int| 0 <= i < s.len() ==> #[trigger] s[i] == v) ==> (scan_letters(
            Some(v),
            s,
        ) matches Err((x, y)) && x == v && y != v && s.contains(y)),
    decreases s.len(),
{
    if s.len() > 0 {
        lemma_scan_from_letter(v, s.drop_first());
        if s[0] == v {
            if forall|i: int| 0 <= i < s.len() ==> #[trigger] s[i] == v {
                assert forall|i: int| 0 <= i < s.drop_first().len() implies #[trigger] s.drop_first()[i]
                    == v by {
                    assert(s.drop_first()[i] == s[i + 1]);
                }
            } else {
                let j = choose|j: int| 0 <= j < s.len() && s[j] != v;
                assert(s.drop_first()[j - 1] == s[j]);
                if let Err((x, y)) = scan_letters(Some(v), s.drop_first()) {
                    let k = choose|k: int| 0 <= k < s.drop_first().len() && s.drop_first()[k] == y;
                    assert(s[k + 1] == y);
                }
            }
        } else {
            assert(s.contains(s[0]));
        }
    }
}

/// The letter search covers the variable terms of both sides of an
/// equation: it finds no letter exactly where no variable term on either
/// side has one; the letter it finds is one of them and every other letter
/// of them is that letter; and where it refuses, the two letters it gives
/// differ and both stand in variable terms. So a letter only on the right
/// side is found, and different letters on the two sides are refused.
pub proof fn lemma_variable_search(equation: Seq<char>)
    ensures
        scan_letters(None, equation_letters(equation)) == Ok::<Option<char>, (char, char)>(None)
            <==> (forall|c: char| !is_equation_letter(equation, c)),
        scan_letters(None, equation_letters(equation)) matches Ok(Some(v)) ==> (is_equation_letter(
            equation,
            v,
        ) && forall|c: char| is_equation_letter(equation, c) ==> c == v),
        scan_letters(None, equation_letters(equation)) matches Err((x, y)) ==> (x != y
            && is_equation_letter(equation, x) && is_equation_letter(equation, y)),
{
    let cl = clean_spec(equation);
    let letters = equation_letters(equation);
    assert forall|c: char| letters.contains(c) <==> is_equation_letter(equation, c) by {
        if cl.contains('=') {
            let l = variable_letters(identify_spec(left_of_equals(cl)));
            let r = variable_letters(identify_spec(right_of_equals(cl)));
            lemma_variable_letters_contains(identify_spec(left_of_equals(cl)), c);
            lemma_variable_letters_contains(identify_spec(right_of_equals(cl)), c);
            if letters.contains(c) {
                let i = choose|i: int| 0 <= i < letters.len() && letters[i] == c;
                if i < l.len() {
                    assert(l[i] == c);
                } else {
                    assert(r[i - l.len()] == c);
                }
            }
            if l.contains(c) {
                let i = choose|i: int| 0 <= i < l.len() && l[i] == c;
                assert(letters[i] == c);
            }
            if r.contains(c) {
                let i = choose|i: int| 0 <= i < r.len() && r[i] == c;
                assert(letters[i + l.len()] == c);
            }
        } else {
            lemma_variable_letters_contains(identify_spec(cl), c);
        }
    }
    if letters.len() > 0 {
        let v = letters[0];
        let rest = letters.drop_first();
        lemma_scan_from_letter(v, rest);
        assert(letters.contains(v));
        if forall|i: int| 0 <= i < rest.len() ==> #[trigger] rest[i] == v {
            assert forall|c: char| is_equation_letter(equation, c) implies c == v by {
                let i = choose|i: int| 0 <= i < letters.len() && letters[i] == c;
                if i > 0 {
                    assert(rest[i - 1] == letters[i]);
                }
            }
        } else {
            if let Err((x, y)) = scan_letters(Some(v), rest) {
                let k = choose|k: int| 0 <= k < rest.len() && rest[k] == y;
                assert(letters[k + 1] == y);
            }
        }
    } else {
        assert forall|c: char| !is_equation_letter(equation, c) by {
            if is_equation_letter(equation, c) {
                assert(letters.contains(c));
            }
        }
    }
}

} // verus!
