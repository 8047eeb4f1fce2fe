//! Splitting an equation such as `2*x +3 =10` into its left and right sides
//! and classifying each signed term (`Constant`, `Multiplication`, ...).
use vstd::prelude::*;
use crate::text::{
    chars_of, is_white_space, split_whitespace_chars, split_whitespace_spec, string_from_chars,
    trim_chars, trim_end_spec, trim_spec, trim_start_spec, words_view, ws_scan,
};

verus! {

/// The kinds of term that an equation is split into.
#[derive(Clone, Copy, PartialEq, Eq, Structural, Debug)]
pub enum ElementKind {
    Variable,
    Constant,
    Exponent,
    Bracket,
    Power,
    Fraction,
    Multiplication,
}

/// The name under which a kind of term is reported.
pub open spec fn kind_name(k: ElementKind) -> Seq<char> {
    match k {
        ElementKind::Variable => "Variable"@,
        ElementKind::Constant => "Constant"@,
        ElementKind::Exponent => "Exponent"@,
        ElementKind::Bracket => "Bracket"@,
        ElementKind::Power => "Power"@,
        ElementKind::Fraction => "Fraction"@,
        ElementKind::Multiplication => "Multiplication"@,
    }
}

impl ElementKind {
    /// The name of this kind, such as `"Multiplication"`.
    pub fn name(&self) -> (s: String)
        ensures
            s@ == kind_name(*self),
    {
        match self {
            ElementKind::Variable => String::from_str("Variable"),
            ElementKind::Constant => String::from_str("Constant"),
            ElementKind::Exponent => String::from_str("Exponent"),
            ElementKind::Bracket => String::from_str("Bracket"),
            ElementKind::Power => String::from_str("Power"),
            ElementKind::Fraction => String::from_str("Fraction"),
            ElementKind::Multiplication => String::from_str("Multiplication"),
        }
    }
}

/// One signed term of an equation side, with the name of its kind.
#[derive(Debug)]
pub struct Element {
    pub value: String,
    pub element_type: String,
}

/// An expression or equation split into its sides.
#[derive(Debug)]
pub struct MappedEquation {
    pub left_side: Vec<Element>,
    pub right_side: Option<Vec<Element>>,
    pub is_equation: bool,
}

/// Each element as its text and the name of its kind.
pub open spec fn elements_view(v: Seq<Element>) -> Seq<(Seq<char>, Seq<char>)> {
    v.map_values(|e: Element| (e.value@, e.element_type@))
}

/// How often `c` occurs in `s`.
pub open spec fn count_char(s: Seq<char>, c: char) -> nat
    decreases s.len(),
{
    if s.len() == 0 {
        0
    } else {
        count_char(s.drop_last(), c) + if s.last() == c {
            1nat
        } else {
            0nat
        }
    }
}

fn count_in(v: &Vec<char>, c: char) -> (n: usize)
    ensures
        n == count_char(v@, c),
{
    let mut n: usize = 0;
    let mut i: usize = 0;
    while i < v.len()
        invariant
            i <= v.len(),
            n == count_char(v@.take(i as int), c),
            n <= i,
        decreases v.len() - i,
    {
        assert(v@.take(i + 1).drop_last() =~= v@.take(i as int));
        if v[i] == c {
            n = n + 1;
        }
        i = i + 1;
    }
    assert(v@.take(v.len() as int) =~= v@);
    n
}

/// `s` with every space character `' '` removed.
pub open spec fn without_spaces(s: Seq<char>) -> Seq<char>
    decreases s.len(),
{
    if s.len() == 0 {
        s
    } else if s.last() == ' ' {
        without_spaces(s.drop_last())
    } else {
        without_spaces(s.drop_last()).push(s.last())
    }
}

/// `s` with a space put in front of every `+` and every `-`.
pub open spec fn signs_spaced(s: Seq<char>) -> Seq<char>
    decreases s.len(),
{
    if s.len() == 0 {
        s
    } else if s.last() == '+' || s.last() == '-' {
        signs_spaced(s.drop_last()).push(' ').push(s.last())
    } else {
        signs_spaced(s.drop_last()).push(s.last())
    }
}

/// What `parse_equation` gives back: the spaces removed, a space put in
/// front of each sign, and no space at the very start.
pub open spec fn parse_equation_spec(s: Seq<char>) -> Seq<char> {
    let line = without_spaces(s);
    let spaced = signs_spaced(line);
    if line.len() > 0 && (line[0] == '+' || line[0] == '-') {
        spaced.drop_first()
    } else {
        spaced
    }
}

proof fn lemma_signs_spaced_first(s: Seq<char>)
    requires
        s.len() > 0,
    ensures
        signs_spaced(s).len() > 0,
        (s[0] == '+' || s[0] == '-') ==> signs_spaced(s)[0] == ' ',
        !(s[0] == '+' || s[0] == '-') ==> signs_spaced(s)[0] == s[0],
    decreases s.len(),
{
    let prev = signs_spaced(s.drop_last());
    if s.len() > 1 {
        lemma_signs_spaced_first(s.drop_last());
        assert(s.drop_last()[0] == s[0]);
        assert(prev.len() > 0);
        assert(prev.push(' ').push(s.last())[0] == prev[0]);
        assert(prev.push(s.last())[0] == prev[0]);
    } else {
        assert(prev.len() == 0);
    }
}

fn parse_equation_chars(data: &Vec<char>) -> (r: Vec<char>)
    ensures
        r@ == parse_equation_spec(data@),
{
    let mut line: Vec<char> = Vec::new();
    let mut i: usize = 0;
    while i < data.len()
        invariant
            i <= data.len(),
            line@ == without_spaces(data@.take(i as int)),
        decreases data.len() - i,
    {
        assert(data@.take(i + 1).drop_last() =~= data@.take(i as int));
        if data[i] != ' ' {
            line.push(data[i]);
        }
        i = i + 1;
    }
    assert(data@.take(data.len() as int) =~= data@);
    let mut spaced: Vec<char> = Vec::new();
    let mut k: usize = 0;
    while k < line.len()
        invariant
            k <= line.len(),
            spaced@ == signs_spaced(line@.take(k as int)),
        decreases line.len() - k,
    {
        assert(line@.take(k + 1).drop_last() =~= line@.take(k as int));
        let c = line[k];
        if c == '+' || c == '-' {
            spaced.push(' ');
        }
        spaced.push(c);
        k = k + 1;
    }
    assert(line@.take(line.len() as int) =~= line@);
    if line.len() > 0 && (line[0] == '+' || line[0] == '-') {
        proof {
            lemma_signs_spaced_first(line@);
        }
        let mut r: Vec<char> = Vec::new();
        let mut j: usize = 1;
        while j < spaced.len()
            invariant
                1 <= j <= spaced.len(),
                r@ == spaced@.subrange(1, j as int),
            decreases spaced.len() - j,
        {
            r.push(spaced[j]);
            assert(r@ =~= spaced@.subrange(1, j + 1));
            j = j + 1;
        }
        assert(r@ =~= spaced@.drop_first());
        r
    } else {
        spaced
    }
}

/// Removes the spaces of `data` and puts a space in front of each `+` and
/// `-`, except one that starts it: `"2*x + 3 = 10"` gives `"2*x +3=10"`.
pub fn parse_equation(data: &str) -> (r: String)
    ensures
        r@ == parse_equation_spec(data@),
{
    let chars = chars_of(data);
    string_from_chars(&parse_equation_chars(&chars))
}

/// Left-to-right state of `merge_parenthesized_tokens`: the finished groups
/// and the group still open, or `None` once a group has more `)` than `(`.
pub open spec fn merge_scan(tokens: Seq<Seq<char>>) -> Option<(Seq<Seq<char>>, Seq<char>)>
    decreases tokens.len(),
{
    if tokens.len() == 0 {
        Some((Seq::empty(), Seq::empty()))
    } else {
        match merge_scan(tokens.drop_last()) {
            None => None,
            Some((merged, pending)) => {
                let p = pending + tokens.last();
                if count_char(p, ')') > count_char(p, '(') {
                    None
                } else if count_char(p, ')') == count_char(p, '(') {
                    Some((merged.push(p), Seq::empty()))
                } else {
                    Some((merged, p))
                }
            },
        }
    }
}

/// Consecutive tokens glued together until each group closes every bracket
/// it opens; a last group that stays open is kept as it is.
pub open spec fn merge_spec(tokens: Seq<Seq<char>>) -> Seq<Seq<char>> {
    match merge_scan(tokens) {
        Some((merged, pending)) => if pending.len() > 0 {
            merged.push(pending)
        } else {
            merged
        },
        None => Seq::empty(),
    }
}

/// The whitespace-separated words of `s` can be merged: no group of words
/// ever closes more brackets than it has opened.
pub open spec fn tokens_nest(s: Seq<char>) -> bool {
    merge_scan(split_whitespace_spec(s)) is Some
}

proof fn lemma_merge_scan_prefix(tokens: Seq<Seq<char>>, i: int)
    requires
        0 <= i <= tokens.len(),
        merge_scan(tokens) is Some,
    ensures
        merge_scan(tokens.take(i)) is Some,
    decreases tokens.len(),
{
    if i == tokens.len() {
        assert(tokens.take(i) =~= tokens);
    } else {
        assert(tokens.drop_last().take(i) =~= tokens.take(i));
        lemma_merge_scan_prefix(tokens.drop_last(), i);
    }
}

/// Every group of non-empty words is non-empty.
proof fn lemma_merge_nonempty(tokens: Seq<Seq<char>>)
    requires
        forall|k: int| 0 <= k < tokens.len() ==> #[trigger] tokens[k].len() > 0,
        merge_scan(tokens) is Some,
    ensures
        forall|k: int|
            0 <= k < merge_spec(tokens).len() ==> #[trigger] merge_spec(tokens)[k].len() > 0,
{
    lemma_merge_scan_nonempty(tokens);
}

proof fn lemma_merge_scan_nonempty(tokens: Seq<Seq<char>>)
    requires
        forall|k: int| 0 <= k < tokens.len() ==> #[trigger] tokens[k].len() > 0,
    ensures
        merge_scan(tokens) matches Some((merged, _)) ==> forall|k: int|
            0 <= k < merged.len() ==> #[trigger] merged[k].len() > 0,
    decreases tokens.len(),
{
    if tokens.len() > 0 {
        let prev = tokens.drop_last();
        assert forall|k: int| 0 <= k < prev.len() implies #[trigger] prev[k].len() > 0 by {
            assert(prev[k] == tokens[k]);
        }
        lemma_merge_scan_nonempty(prev);
        if let Some((merged, pending)) = merge_scan(prev) {
            let p = pending + tokens.last();
            assert(p.len() > 0);
            assert forall|k: int| 0 <= k < merged.push(p).len() implies #[trigger] merged.push(
                p,
            )[k].len() > 0 by {
                if k < merged.len() {
                    assert(merged.push(p)[k] == merged[k]);
                }
            }
        }
    }
}

/// Glues consecutive tokens until the brackets they open are closed, so that
/// `"+(4"` and `"-8)"` become the one term `"+(4-8)"`. `None` where a group
/// would close more brackets than it opened.
fn merge_parenthesized_tokens(raw_tokens: Vec<Vec<char>>) -> (merged: Option<Vec<Vec<char>>>)
    ensures
        merged is Some <==> merge_scan(words_view(raw_tokens@)) is Some,
        merged matches Some(m) ==> words_view(m@) == merge_spec(words_view(raw_tokens@)),
{
    let ghost tokens = words_view(raw_tokens@);
    let mut merged: Vec<Vec<char>> = Vec::new();
    let mut pending: Vec<char> = Vec::new();
    let n = raw_tokens.len();
    let mut i: usize = 0;
    while i < n
        invariant
            i <= n,
            n == raw_tokens@.len(),
            tokens == words_view(raw_tokens@),
            merge_scan(tokens.take(i as int)) == Some((words_view(merged@), pending@)),
        decreases n - i,
    {
        let raw = &raw_tokens[i];
        let ghost before = pending@;
        let mut j: usize = 0;
        while j < raw.len()
            invariant
                j <= raw.len(),
                pending@ == before + raw@.take(j as int),
            decreases raw.len() - j,
        {
            pending.push(raw[j]);
            assert(pending@ =~= before + raw@.take(j + 1));
            j = j + 1;
        }
        assert(raw@.take(raw.len() as int) =~= raw@);
        assert(tokens.take(i + 1).drop_last() =~= tokens.take(i as int));
        assert(tokens.take(i + 1).last() == raw@);
        let opens = count_in(&pending, '(');
        let closes = count_in(&pending, ')');
        if closes > opens {
            proof {
                if merge_scan(tokens) is Some {
                    lemma_merge_scan_prefix(tokens, i + 1);
                }
            }
            return None;
        }
        if opens == closes {
            let ghost old_merged = words_view(merged@);
            merged.push(pending);
            assert(words_view(merged@) =~= old_merged.push(before + raw@));
            pending = Vec::new();
        }
        i = i + 1;
    }
    assert(tokens.take(n as int) =~= tokens);
    if pending.len() > 0 {
        let ghost old_merged = words_view(merged@);
        let ghost p = pending@;
        merged.push(pending);
        assert(words_view(merged@) =~= old_merged.push(p));
    }
    Some(merged)
}

/// Whether the words of `v` can be merged into bracket-closed groups.
fn nests(v: &Vec<char>) -> (b: bool)
    ensures
        b == tokens_nest(v@),
{
    merge_parenthesized_tokens(split_whitespace_chars(v)).is_some()
}

/// `s` without the `+` and `-` signs it starts with.
pub open spec fn strip_signs(s: Seq<char>) -> Seq<char>
    decreases s.len(),
{
    if s.len() > 0 && (s[0] == '+' || s[0] == '-') {
        strip_signs(s.drop_first())
    } else {
        s
    }
}

/// `s` holds `#` twice in a row.
pub open spec fn has_double_hash(s: Seq<char>) -> bool {
    exists|i: int| 0 <= i < s.len() - 1 && #[trigger] s[i] == '#' && s[i + 1] == '#'
}

/// `s` is one bracketed group, such as `(4-8)`.
pub open spec fn is_bracket_group(s: Seq<char>) -> bool {
    s.len() > 1 && s[0] == '(' && s.last() == ')'
}

/// `s` is a plain unsigned number: ASCII digits and points, at least one.
pub open spec fn is_number_body(s: Seq<char>) -> bool {
    s.len() > 0 && forall|i: int| 0 <= i < s.len() ==> ('0' <= #[trigger] s[i] <= '9' || s[i] == '.')
}

/// The kind of a term, decided in this order: a product, a lone bracket, a
/// signed bracketed group, a quotient, an exponent (`##`), a power (`^`), a
/// signed number, and otherwise a variable term.
pub open spec fn classify(t: Seq<char>) -> ElementKind {
    if t.contains('*') {
        ElementKind::Multiplication
    } else if t == seq!['('] || t == seq![')'] || t == seq!['['] || t == seq![']'] {
        ElementKind::Bracket
    } else if is_bracket_group(strip_signs(t)) {
        ElementKind::Bracket
    } else if t.contains('/') {
        ElementKind::Fraction
    } else if has_double_hash(t) {
        ElementKind::Exponent
    } else if t.contains('^') {
        ElementKind::Power
    } else if is_number_body(strip_signs(t)) {
        ElementKind::Constant
    } else {
        ElementKind::Variable
    }
}

/// The terms of one side of an equation: its merged tokens, each with the
/// name of its kind.
pub open spec fn identify_spec(s: Seq<char>) -> Seq<(Seq<char>, Seq<char>)> {
    merge_spec(split_whitespace_spec(s)).map_values(|t: Seq<char>| (t, kind_name(classify(t))))
}

fn contains_char(v: &Vec<char>, c: char) -> (b: bool)
    ensures
        b == v@.contains(c),
{
    let mut i: usize = 0;
    while i < v.len()
        invariant
            i <= v.len(),
            forall|k: int| 0 <= k < i ==> v@[k] != c,
        decreases v.len() - i,
    {
        if v[i] == c {
            return true;
        }
        i = i + 1;
    }
    false
}

fn contains_double_hash(v: &Vec<char>) -> (b: bool)
    ensures
        b == has_double_hash(v@),
{
    let mut i: usize = 0;
    while i < v.len() && v.len() - i > 1
        invariant
            i <= v.len(),
            forall|k: int|
                0 <= k < i && k < v.len() - 1 ==> !(#[trigger] v@[k] == '#' && v@[k + 1] == '#'),
        decreases v.len() - i,
    {
        if v[i] == '#' && v[i + 1] == '#' {
            return true;
        }
        i = i + 1;
    }
    false
}

fn sign_prefix_len(v: &Vec<char>) -> (k: usize)
    ensures
        k <= v.len(),
        strip_signs(v@) == v@.skip(k as int),
{
    let mut k: usize = 0;
    assert(v@.skip(0) =~= v@);
    while k < v.len() && (v[k] == '+' || v[k] == '-')
        invariant
            k <= v.len(),
            strip_signs(v@) == strip_signs(v@.skip(k as int)),
        decreases v.len() - k,
    {
        assert(v@.skip(k as int).drop_first() =~= v@.skip(k + 1));
        k = k + 1;
    }
    k
}

fn is_single(v: &Vec<char>, c: char) -> (b: bool)
    ensures
        b == (v@ == seq![c]),
{
    if v.len() == 1 && v[0] == c {
        assert(v@ =~= seq![c]);
        true
    } else {
        false
    }
}

fn classify_chars(t: &Vec<char>) -> (k: ElementKind)
    ensures
        k == classify(t@),
{
    if contains_char(t, '*') {
        return ElementKind::Multiplication;
    }
    if is_single(t, '(') || is_single(t, ')') || is_single(t, '[') || is_single(t, ']') {
        return ElementKind::Bracket;
    }
    let start = sign_prefix_len(t);
    let n = t.len();
    if n - start > 1 && t[start] == '(' && t[n - 1] == ')' {
        return ElementKind::Bracket;
    }
    if contains_char(t, '/') {
        return ElementKind::Fraction;
    }
    if contains_double_hash(t) {
        return ElementKind::Exponent;
    }
    if contains_char(t, '^') {
        return ElementKind::Power;
    }
    if n > start {
        let mut i: usize = start;
        let mut all_numeric = true;
        while i < n
            invariant
                start <= i <= n,
                n == t@.len(),
                all_numeric == forall|k: int|
                    start <= k < i ==> ('0' <= #[trigger] t@[k] <= '9' || t@[k] == '.'),
            decreases n - i,
        {
            let c = t[i];
            if !(('0' <= c && c <= '9') || c == '.') {
                all_numeric = false;
            }
            i = i + 1;
        }
        let ghost body = t@.skip(start as int);
        assert(all_numeric == is_number_body(body)) by {
            if all_numeric {
                assert forall|k: int| 0 <= k < body.len() implies ('0' <= #[trigger] body[k]
                    <= '9' || body[k] == '.') by {
                    assert(body[k] == t@[k + start]);
                }
            } else {
                let w = choose|k: int|
                    start <= k < n && !('0' <= #[trigger] t@[k] <= '9' || t@[k] == '.');
                assert(body[w - start] == t@[w]);
            }
        }
        if all_numeric {
            return ElementKind::Constant;
        }
    }
    ElementKind::Variable
}

fn identify_chars(equation: &Vec<char>) -> (elements: Vec<Element>)
    requires
        tokens_nest(equation@),
    ensures
        elements_view(elements@) == identify_spec(equation@),
{
    let raw_tokens = split_whitespace_chars(equation);
    proof {
        crate::text::lemma_split_whitespace_words(equation@);
    }
    let tokens = match merge_parenthesized_tokens(raw_tokens) {
        Some(t) => t,
        None => {
            proof {
                assert(false);
            }
            Vec::new()
        },
    };
    let ghost spec_tokens = merge_spec(split_whitespace_spec(equation@));
    let mut elements: Vec<Element> = Vec::new();
    let mut i: usize = 0;
    while i < tokens.len()
        invariant
            i <= tokens.len(),
            words_view(tokens@) == spec_tokens,
            elements_view(elements@) == spec_tokens.take(i as int).map_values(
                |t: Seq<char>| (t, kind_name(classify(t))),
            ),
        decreases tokens.len() - i,
    {
        let token = &tokens[i];
        let kind = classify_chars(token);
        let ghost old_view = elements_view(elements@);
        let value = string_from_chars(token);
        let element_type = kind.name();
        elements.push(Element { value, element_type });
        assert(spec_tokens[i as int] == token@);
        assert(elements_view(elements@) =~= old_view.push((token@, kind_name(classify(token@)))));
        assert(elements_view(elements@) =~= spec_tokens.take(i + 1).map_values(
            |t: Seq<char>| (t, kind_name(classify(t))),
        ));
        i = i + 1;
    }
    assert(spec_tokens.take(tokens.len() as int) =~= spec_tokens);
    elements
}

/// Splits one side of an equation into its terms, in order, and names the
/// kind of each (`"Constant"`, `"Multiplication"`, `"Bracket"`, ...).
pub fn identify_elements(equation: &str) -> (elements: Vec<Element>)
    requires
        tokens_nest(equation@),
    ensures
        elements_view(elements@) == identify_spec(equation@),
{
    let chars = chars_of(equation);
    identify_chars(&chars)
}

/// The position of the first `c` in `s`, or `s.len()` where there is none.
pub open spec fn first_index(s: Seq<char>, c: char) -> int
    decreases s.len(),
{
    if s.len() == 0 {
        0
    } else if s[0] == c {
        0
    } else {
        1 + first_index(s.drop_first(), c)
    }
}

proof fn lemma_first_index(s: Seq<char>, c: char, k: int)
    requires
        0 <= k <= s.len(),
        k < s.len() ==> s[k] == c,
        forall|j: int| 0 <= j < k ==> s[j] != c,
    ensures
        first_index(s, c) == k,
    decreases s.len(),
{
    if s.len() > 0 && k > 0 {
        assert forall|j: int| 0 <= j < k - 1 implies s.drop_first()[j] != c by {
            assert(s.drop_first()[j] == s[j + 1]);
        }
        lemma_first_index(s.drop_first(), c, k - 1);
    }
}

/// The text that `map_elements` splits: the equation trimmed, then put
/// through `parse_equation`.
pub open spec fn clean_spec(equation: Seq<char>) -> Seq<char> {
    parse_equation_spec(trim_spec(equation))
}

/// The text starts with `*` or `/`.
pub open spec fn starts_with_operator(s: Seq<char>) -> bool {
    s.len() > 0 && (s[0] == '*' || s[0] == '/')
}

/// The text before the first `=`.
pub open spec fn left_of_equals(s: Seq<char>) -> Seq<char> {
    s.take(first_index(s, '='))
}

/// The text after the first `=`.
pub open spec fn right_of_equals(s: Seq<char>) -> Seq<char> {
    s.skip(first_index(s, '=') + 1)
}

/// Each side that `map_elements` splits has bracket-closed groups.
pub open spec fn sides_nest(s: Seq<char>) -> bool {
    if s.contains('=') {
        tokens_nest(left_of_equals(s)) && tokens_nest(right_of_equals(s))
    } else {
        tokens_nest(s)
    }
}

/// The equations that `map_elements` accepts: after cleaning, the text does
/// not start with `*` or `/`, holds at most one `=`, and no group of words on
/// either side closes more brackets than it opened.
pub open spec fn is_mappable(equation: Seq<char>) -> bool {
    let c = clean_spec(equation);
    &&& !starts_with_operator(c)
    &&& count_char(c, '=') <= 1
    &&& sides_nest(c)
}

/// Why `map_elements` refuses an equation.
#[derive(Clone, Copy, PartialEq, Eq, Structural, Debug)]
pub enum MapError {
    /// The equation starts with `*` or `/`.
    StartsWithOperator,
    /// The equation holds more than one `=`.
    MultipleEquals,
    /// A group of words closes a bracket that it never opened.
    UnbalancedBrackets,
}

/// The error that `map_elements` has for an equation, checked in the order
/// in which it meets them.
pub open spec fn map_error(equation: Seq<char>) -> Option<MapError> {
    let c = clean_spec(equation);
    if starts_with_operator(c) {
        Some(MapError::StartsWithOperator)
    } else if count_char(c, '=') > 1 {
        Some(MapError::MultipleEquals)
    } else if !sides_nest(c) {
        Some(MapError::UnbalancedBrackets)
    } else {
        None
    }
}

pub fn subrange_chars(v: &Vec<char>, from: usize, to: usize) -> (r: Vec<char>)
    requires
        from <= to <= v.len(),
    ensures
        r@ == v@.subrange(from as int, to as int),
{
    let mut r: Vec<char> = Vec::new();
    let mut k: usize = from;
    while k < to
        invariant
            from <= k <= to <= v.len(),
            r@ == v@.subrange(from as int, k as int),
        decreases to - k,
    {
        r.push(v[k]);
        assert(r@ =~= v@.subrange(from as int, k + 1));
        k = k + 1;
    }
    r
}

pub fn find_char(v: &Vec<char>, c: char) -> (k: usize)
    ensures
        k == first_index(v@, c),
        k <= v.len(),
        (k < v.len()) == v@.contains(c),
{
    let mut k: usize = 0;
    while k < v.len() && v[k] != c
        invariant
            k <= v.len(),
            forall|j: int| 0 <= j < k ==> v@[j] != c,
        decreases v.len() - k,
    {
        k = k + 1;
    }
    proof {
        lemma_first_index(v@, c, k as int);
    }
    k
}

fn clean_chars(equation: &str) -> (c: Vec<char>)
    ensures
        c@ == clean_spec(equation@),
{
    let chars = chars_of(equation);
    let trimmed = trim_chars(&chars);
    parse_equation_chars(&trimmed)
}

/// Checks an equation before it is mapped: `Ok` exactly where
/// `map_elements` accepts it, else the first reason it refuses it.
pub fn validate_equation(equation: &str) -> (r: Result<(), MapError>)
    ensures
        r is Ok <==> is_mappable(equation@),
        r matches Err(e) ==> map_error(equation@) == Some(e),
        r is Ok ==> map_error(equation@) is None,
{
    let clean = clean_chars(equation);
    if clean.len() > 0 && (clean[0] == '*' || clean[0] == '/') {
        return Err(MapError::StartsWithOperator);
    }
    if count_in(&clean, '=') > 1 {
        return Err(MapError::MultipleEquals);
    }
    let k = find_char(&clean, '=');
    let ok = if k < clean.len() {
        let left = subrange_chars(&clean, 0, k);
        let right = subrange_chars(&clean, k + 1, clean.len());
        assert(left@ =~= left_of_equals(clean@));
        assert(right@ =~= right_of_equals(clean@));
        nests(&left) && nests(&right)
    } else {
        nests(&clean)
    };
    if ok {
        Ok(())
    } else {
        Err(MapError::UnbalancedBrackets)
    }
}

/// Splits an expression or an equation into its terms: the left side, and
/// the right side where the text holds `=`.
pub fn map_elements(equation: &str) -> (mapped: MappedEquation)
    requires
        is_mappable(equation@),
    ensures
        mapped.is_equation == clean_spec(equation@).contains('='),
        mapped.is_equation ==> {
            &&& elements_view(mapped.left_side@) == identify_spec(
                left_of_equals(clean_spec(equation@)),
            )
            &&& mapped.right_side matches Some(r) && elements_view(r@) == identify_spec(
                right_of_equals(clean_spec(equation@)),
            )
        },
        !mapped.is_equation ==> {
            &&& elements_view(mapped.left_side@) == identify_spec(clean_spec(equation@))
            &&& mapped.right_side is None
        },
{
    let clean = clean_chars(equation);
    let k = find_char(&clean, '=');
    if k < clean.len() {
        let left = subrange_chars(&clean, 0, k);
        let right = subrange_chars(&clean, k + 1, clean.len());
        assert(left@ =~= left_of_equals(clean@));
        assert(right@ =~= right_of_equals(clean@));
        MappedEquation {
            left_side: identify_chars(&left),
            right_side: Some(identify_chars(&right)),
            is_equation: true,
        }
    } else {
        MappedEquation { left_side: identify_chars(&clean), right_side: None, is_equation: false }
    }
}

pub proof fn lemma_without_spaces_concat(a: Seq<char>, b: Seq<char>)
    ensures
        without_spaces(a + b) == without_spaces(a) + without_spaces(b),
    decreases b.len(),
{
    if b.len() == 0 {
        assert(a + b =~= a);
        assert(without_spaces(a) + without_spaces(b) =~= without_spaces(a));
    } else {
        assert((a + b).drop_last() =~= a + b.drop_last());
        lemma_without_spaces_concat(a, b.drop_last());
        if b.last() != ' ' {
            assert(without_spaces(a) + without_spaces(b.drop_last()).push(b.last()) =~= (
            without_spaces(a) + without_spaces(b.drop_last())).push(b.last()));
        }
    }
}

pub proof fn lemma_without_spaces_single(c: char)
    ensures
        without_spaces(seq![c]) == if c == ' ' {
            Seq::<char>::empty()
        } else {
            seq![c]
        },
{
    let s = seq![c];
    assert(s.drop_last() =~= Seq::<char>::empty());
    assert(s.last() == c);
    assert(without_spaces(s.drop_last()) =~= Seq::<char>::empty());
    assert(Seq::<char>::empty().push(c) =~= seq![c]);
}

proof fn lemma_without_spaces_no_space(s: Seq<char>)
    ensures
        !without_spaces(s).contains(' '),
    decreases s.len(),
{
    if s.len() > 0 {
        lemma_without_spaces_no_space(s.drop_last());
        let w = without_spaces(s.drop_last());
        if s.last() != ' ' {
            assert forall|i: int| 0 <= i < w.push(s.last()).len() implies w.push(s.last())[i]
                != ' ' by {
                if i < w.len() {
                    assert(w.push(s.last())[i] == w[i]);
                }
            }
        }
    }
}

proof fn lemma_signs_spaced_strip(line: Seq<char>)
    requires
        !line.contains(' '),
    ensures
        without_spaces(signs_spaced(line)) == line,
    decreases line.len(),
{
    if line.len() > 0 {
        assert(!line.drop_last().contains(' ')) by {
            if line.drop_last().contains(' ') {
                let i = choose|i: int|
                    0 <= i < line.drop_last().len() && line.drop_last()[i] == ' ';
                assert(line[i] == ' ');
            }
        }
        lemma_signs_spaced_strip(line.drop_last());
        let prev = signs_spaced(line.drop_last());
        let c = line.last();
        assert(c != ' ');
        if c == '+' || c == '-' {
            lemma_without_spaces_concat(prev, seq![' ', c]);
            assert(prev.push(' ').push(c) =~= prev + seq![' ', c]);
            lemma_without_spaces_concat(seq![' '], seq![c]);
            assert(seq![' '] + seq![c] =~= seq![' ', c]);
            lemma_without_spaces_single(' ');
            lemma_without_spaces_single(c);
            assert(Seq::<char>::empty() + seq![c] =~= seq![c]);
        } else {
            lemma_without_spaces_concat(prev, seq![c]);
            assert(prev.push(c) =~= prev + seq![c]);
            lemma_without_spaces_single(c);
        }
        assert(line.drop_last().push(c) =~= line);
    }
}

/// `parse_equation` changes nothing but spaces: with the spaces removed, its
/// result is its input with the spaces removed.
pub proof fn lemma_parse_equation_only_spaces(s: Seq<char>)
    ensures
        without_spaces(parse_equation_spec(s)) == without_spaces(s),
{
    let line = without_spaces(s);
    lemma_without_spaces_no_space(s);
    lemma_signs_spaced_strip(line);
    let spaced = signs_spaced(line);
    if line.len() > 0 && (line[0] == '+' || line[0] == '-') {
        lemma_signs_spaced_first(line);
        assert(spaced =~= seq![spaced[0]] + spaced.drop_first());
        lemma_without_spaces_concat(seq![spaced[0]], spaced.drop_first());
        lemma_without_spaces_single(spaced[0]);
        assert(Seq::<char>::empty() + without_spaces(spaced.drop_first()) =~= without_spaces(
            spaced.drop_first(),
        ));
    }
}

/// `parse_equation` is idempotent: text it gave back comes back unchanged.
pub proof fn lemma_parse_equation_idempotent(s: Seq<char>)
    ensures
        parse_equation_spec(parse_equation_spec(s)) == parse_equation_spec(s),
{
    lemma_parse_equation_only_spaces(s);
}

/// `s` with every white-space character removed.
pub open spec fn without_white_space(s: Seq<char>) -> Seq<char>
    decreases s.len(),
{
    if s.len() == 0 {
        s
    } else if is_white_space(s.last()) {
        without_white_space(s.drop_last())
    } else {
        without_white_space(s.drop_last()).push(s.last())
    }
}

/// The words of `ws` written one after the other.
pub open spec fn flatten(ws: Seq<Seq<char>>) -> Seq<char>
    decreases ws.len(),
{
    if ws.len() == 0 {
        Seq::empty()
    } else {
        flatten(ws.drop_last()) + ws.last()
    }
}

/// The texts of a list of terms.
pub open spec fn term_values(terms: Seq<(Seq<char>, Seq<char>)>) -> Seq<Seq<char>> {
    terms.map_values(|t: (Seq<char>, Seq<char>)| t.0)
}

proof fn lemma_flatten_push(ws: Seq<Seq<char>>, w: Seq<char>)
    ensures
        flatten(ws.push(w)) == flatten(ws) + w,
{
    assert(ws.push(w).drop_last() =~= ws);
}

proof fn lemma_ws_scan_flatten(s: Seq<char>)
    ensures
        flatten(ws_scan(s).0) + ws_scan(s).1 == without_white_space(s),
    decreases s.len(),
{
    if s.len() == 0 {
        assert(flatten(Seq::<Seq<char>>::empty()) + Seq::<char>::empty() =~= Seq::<char>::empty());
    } else {
        lemma_ws_scan_flatten(s.drop_last());
        let (words, cur) = ws_scan(s.drop_last());
        if is_white_space(s.last()) {
            if cur.len() > 0 {
                lemma_flatten_push(words, cur);
                assert(flatten(words) + cur + Seq::<char>::empty() =~= flatten(words) + cur);
            }
        } else {
            assert(flatten(words) + cur.push(s.last()) =~= (flatten(words) + cur).push(s.last()));
        }
    }
}

proof fn lemma_split_whitespace_flatten(s: Seq<char>)
    ensures
        flatten(split_whitespace_spec(s)) == without_white_space(s),
{
    lemma_ws_scan_flatten(s);
    let (words, cur) = ws_scan(s);
    if cur.len() > 0 {
        lemma_flatten_push(words, cur);
    } else {
        assert(flatten(words) + cur =~= flatten(words));
    }
}

proof fn lemma_merge_scan_flatten(tokens: Seq<Seq<char>>)
    ensures
        merge_scan(tokens) matches Some((merged, pending)) ==> flatten(merged) + pending == flatten(
            tokens,
        ),
    decreases tokens.len(),
{
    if tokens.len() == 0 {
        assert(flatten(Seq::<Seq<char>>::empty()) + Seq::<char>::empty() =~= Seq::<char>::empty());
    } else {
        lemma_merge_scan_flatten(tokens.drop_last());
        if let Some((merged, pending)) = merge_scan(tokens.drop_last()) {
            let p = pending + tokens.last();
            lemma_flatten_push(merged, p);
            assert(flatten(merged) + p =~= flatten(merged) + pending + tokens.last());
            assert(flatten(merged.push(p)) + Seq::<char>::empty() =~= flatten(merged.push(p)));
        }
    }
}

proof fn lemma_identify_values(s: Seq<char>)
    ensures
        term_values(identify_spec(s)) == merge_spec(split_whitespace_spec(s)),
{
    assert(term_values(identify_spec(s)) =~= merge_spec(split_whitespace_spec(s)));
}

/// Splitting a side into terms loses no character but white space: the
/// terms written one after the other are the side without its white space.
pub proof fn lemma_terms_keep_text(s: Seq<char>)
    requires
        tokens_nest(s),
    ensures
        flatten(term_values(identify_spec(s))) == without_white_space(s),
{
    let tokens = split_whitespace_spec(s);
    lemma_identify_values(s);
    lemma_split_whitespace_flatten(s);
    lemma_merge_scan_flatten(tokens);
    let (merged, pending) = merge_scan(tokens)->0;
    if pending.len() > 0 {
        lemma_flatten_push(merged, pending);
    } else {
        assert(flatten(merged) + pending =~= flatten(merged));
    }
}

/// Every term of a side is non-empty.
pub proof fn lemma_terms_nonempty(s: Seq<char>)
    requires
        tokens_nest(s),
    ensures
        forall|k: int|
            0 <= k < identify_spec(s).len() ==> #[trigger] identify_spec(s)[k].0.len() > 0,
{
    crate::text::lemma_split_whitespace_words(s);
    lemma_merge_nonempty(split_whitespace_spec(s));
    lemma_identify_values(s);
    assert forall|k: int| 0 <= k < identify_spec(s).len() implies #[trigger] identify_spec(
        s,
    )[k].0.len() > 0 by {
        assert(term_values(identify_spec(s))[k] == identify_spec(s)[k].0);
    }
}

proof fn lemma_merge_scan_balance(tokens: Seq<Seq<char>>)
    ensures
        merge_scan(tokens) matches Some((merged, pending)) ==> {
            &&& forall|k: int|
                0 <= k < merged.len() ==> count_char(#[trigger] merged[k], ')') == count_char(
                    merged[k],
                    '(',
                )
            &&& pending.len() > 0 ==> count_char(pending, ')') < count_char(pending, '(')
        },
    decreases tokens.len(),
{
    if tokens.len() > 0 {
        lemma_merge_scan_balance(tokens.drop_last());
        if let Some((merged, pending)) = merge_scan(tokens.drop_last()) {
            let p = pending + tokens.last();
            if count_char(p, ')') == count_char(p, '(') {
                assert forall|k: int| 0 <= k < merged.push(p).len() implies count_char(
                    #[trigger] merged.push(p)[k],
                    ')',
                ) == count_char(merged.push(p)[k], '(') by {
                    if k < merged.len() {
                        assert(merged.push(p)[k] == merged[k]);
                    }
                }
            }
        }
    }
}

/// Brackets decide where terms end: every term but the last closes as many
/// brackets as it opens, and the last never closes more than it opens.
pub proof fn lemma_terms_balance_brackets(s: Seq<char>)
    requires
        tokens_nest(s),
    ensures
        forall|k: int|
            0 <= k < identify_spec(s).len() ==> count_char(#[trigger] identify_spec(s)[k].0, ')')
                <= count_char(identify_spec(s)[k].0, '('),
        forall|k: int|
            0 <= k < identify_spec(s).len() - 1 ==> count_char(
                #[trigger] identify_spec(s)[k].0,
                ')',
            ) == count_char(identify_spec(s)[k].0, '('),
{
    let tokens = split_whitespace_spec(s);
    lemma_merge_scan_balance(tokens);
    lemma_identify_values(s);
    let (merged, pending) = merge_scan(tokens)->0;
    let terms = merge_spec(tokens);
    assert forall|k: int| 0 <= k < identify_spec(s).len() implies count_char(
        #[trigger] identify_spec(s)[k].0,
        ')',
    ) <= count_char(identify_spec(s)[k].0, '(') && (k < identify_spec(s).len() - 1 ==> count_char(
        identify_spec(s)[k].0,
        ')',
    ) == count_char(identify_spec(s)[k].0, '(')) by {
        assert(term_values(identify_spec(s))[k] == identify_spec(s)[k].0);
        assert(terms[k] == identify_spec(s)[k].0);
        if k < merged.len() {
            assert(terms[k] == merged[k]);
        }
    }
}

/// Every white-space character of `s` is directly followed by a sign.
pub open spec fn spaces_before_signs(s: Seq<char>) -> bool {
    forall|i: int|
        0 <= i < s.len() && is_white_space(#[trigger] s[i]) ==> i + 1 < s.len() && (s[i + 1]
            == '+' || s[i + 1] == '-')
}

/// The only white space that `s` holds is the space character.
pub open spec fn only_spaces_white(s: Seq<char>) -> bool {
    forall|i: int| 0 <= i < s.len() && is_white_space(#[trigger] s[i]) ==> s[i] == ' '
}

/// A term that begins with `+` or `-`.
pub open spec fn starts_with_sign(t: Seq<char>) -> bool {
    t.len() > 0 && (t[0] == '+' || t[0] == '-')
}

proof fn lemma_trim_start_suffix(s: Seq<char>) -> (k: int)
    ensures
        0 <= k <= s.len(),
        trim_start_spec(s) == s.skip(k),
    decreases s.len(),
{
    if s.len() > 0 && is_white_space(s[0]) {
        let k = lemma_trim_start_suffix(s.drop_first());
        assert(s.drop_first().skip(k) =~= s.skip(k + 1));
        k + 1
    } else {
        assert(s.skip(0) =~= s);
        0
    }
}

proof fn lemma_trim_end_prefix(s: Seq<char>) -> (k: int)
    ensures
        0 <= k <= s.len(),
        trim_end_spec(s) == s.take(k),
    decreases s.len(),
{
    if s.len() > 0 && is_white_space(s.last()) {
        let k = lemma_trim_end_prefix(s.drop_last());
        assert(s.drop_last().take(k) =~= s.take(k));
        k
    } else {
        assert(s.take(s.len() as int) =~= s);
        s.len() as int
    }
}

proof fn lemma_trim_only_spaces(s: Seq<char>)
    requires
        only_spaces_white(s),
    ensures
        only_spaces_white(trim_spec(s)),
{
    let a = lemma_trim_start_suffix(s);
    let t = s.skip(a);
    let b = lemma_trim_end_prefix(t);
    assert forall|i: int|
        0 <= i < trim_spec(s).len() && is_white_space(#[trigger] trim_spec(s)[i]) implies trim_spec(
        s,
    )[i] == ' ' by {
        assert(trim_spec(s)[i] == s[a + i]);
    }
}

proof fn lemma_without_spaces_no_white(s: Seq<char>)
    requires
        only_spaces_white(s),
    ensures
        forall|i: int|
            0 <= i < without_spaces(s).len() ==> !is_white_space(#[trigger] without_spaces(s)[i]),
    decreases s.len(),
{
    if s.len() > 0 {
        assert(only_spaces_white(s.drop_last())) by {
            assert forall|i: int|
                0 <= i < s.drop_last().len() && is_white_space(
                    #[trigger] s.drop_last()[i],
                ) implies s.drop_last()[i] == ' ' by {
                assert(s.drop_last()[i] == s[i]);
            }
        }
        lemma_without_spaces_no_white(s.drop_last());
        let w = without_spaces(s.drop_last());
        if s.last() != ' ' {
            assert(!is_white_space(s[s.len() - 1]));
            assert forall|i: int| 0 <= i < w.push(s.last()).len() implies !is_white_space(
                #[trigger] w.push(s.last())[i],
            ) by {
                if i < w.len() {
                    assert(w.push(s.last())[i] == w[i]);
                }
            }
        }
    }
}

proof fn lemma_signs_spaced_before_signs(line: Seq<char>)
    requires
        forall|i: int| 0 <= i < line.len() ==> !is_white_space(#[trigger] line[i]),
    ensures
        spaces_before_signs(signs_spaced(line)),
    decreases line.len(),
{
    if line.len() > 0 {
        let prev_line = line.drop_last();
        assert forall|i: int| 0 <= i < prev_line.len() implies !is_white_space(
            #[trigger] prev_line[i],
        ) by {
            assert(prev_line[i] == line[i]);
        }
        lemma_signs_spaced_before_signs(prev_line);
        let p = signs_spaced(prev_line);
        let c = line.last();
        assert(!is_white_space(line[line.len() - 1]));
        if c == '+' || c == '-' {
            let q = p.push(' ').push(c);
            assert forall|i: int| 0 <= i < q.len() && is_white_space(#[trigger] q[i]) implies i + 1
                < q.len() && (q[i + 1] == '+' || q[i + 1] == '-') by {
                if i < p.len() {
                    assert(q[i] == p[i]);
                    if i + 1 < p.len() {
                        assert(q[i + 1] == p[i + 1]);
                    }
                }
            }
        } else {
            let q = p.push(c);
            assert forall|i: int| 0 <= i < q.len() && is_white_space(#[trigger] q[i]) implies i + 1
                < q.len() && (q[i + 1] == '+' || q[i + 1] == '-') by {
                if i < p.len() {
                    assert(q[i] == p[i]);
                    assert(q[i + 1] == p[i + 1]);
                }
            }
        }
    }
}

/// In the text that `parse_equation` gives back for text whose only white
/// space is the space character, every space stands directly before a sign.
pub proof fn lemma_parse_equation_spaces_before_signs(s: Seq<char>)
    requires
        only_spaces_white(s),
    ensures
        spaces_before_signs(parse_equation_spec(s)),
{
    let line = without_spaces(s);
    lemma_without_spaces_no_white(s);
    lemma_signs_spaced_before_signs(line);
    let spaced = signs_spaced(line);
    if line.len() > 0 && (line[0] == '+' || line[0] == '-') {
        let d = spaced.drop_first();
        lemma_signs_spaced_first(line);
        assert forall|i: int| 0 <= i < d.len() && is_white_space(#[trigger] d[i]) implies i + 1
            < d.len() && (d[i + 1] == '+' || d[i + 1] == '-') by {
            assert(d[i] == spaced[i + 1]);
        }
    }
}

proof fn lemma_sides_before_signs(c: Seq<char>)
    requires
        spaces_before_signs(c),
        c.contains('='),
    ensures
        spaces_before_signs(left_of_equals(c)),
        spaces_before_signs(right_of_equals(c)),
{
    let k = choose|i: int| 0 <= i < c.len() && c[i] == '=';
    let j = first_index(c, '=');
    lemma_first_index_found(c, '=', k);
    let l = left_of_equals(c);
    let r = right_of_equals(c);
    assert forall|i: int| 0 <= i < l.len() && is_white_space(#[trigger] l[i]) implies i + 1 < l.len()
        && (l[i + 1] == '+' || l[i + 1] == '-') by {
        assert(l[i] == c[i]);
        if i + 1 == j {
            assert(c[j] == '=');
        }
        assert(l[i + 1] == c[i + 1]);
    }
    assert forall|i: int| 0 <= i < r.len() && is_white_space(#[trigger] r[i]) implies i + 1 < r.len()
        && (r[i + 1] == '+' || r[i + 1] == '-') by {
        assert(r[i] == c[i + j + 1]);
        assert(r[i + 1] == c[i + j + 2]);
    }
}

proof fn lemma_first_index_found(s: Seq<char>, c: char, k: int)
    requires
        0 <= k < s.len(),
        s[k] == c,
    ensures
        0 <= first_index(s, c) <= k,
        s[first_index(s, c)] == c,
    decreases s.len(),
{
    if s[0] != c {
        lemma_first_index_found(s.drop_first(), c, k - 1);
    }
}

proof fn lemma_ws_scan_signs(s: Seq<char>, n: int)
    requires
        spaces_before_signs(s),
        0 <= n <= s.len(),
    ensures
        ({
            let (words, cur) = ws_scan(s.take(n));
            &&& forall|k: int| 1 <= k < words.len() ==> starts_with_sign(#[trigger] words[k])
            &&& words.len() >= 1 && cur.len() > 0 ==> starts_with_sign(cur)
            &&& words.len() >= 1 && cur.len() == 0 ==> n > 0 && is_white_space(s[n - 1])
        }),
    decreases n,
{
    if n > 0 {
        lemma_ws_scan_signs(s, n - 1);
        assert(s.take(n).drop_last() =~= s.take(n - 1));
        assert(s.take(n).last() == s[n - 1]);
        let (words, cur) = ws_scan(s.take(n - 1));
        let c = s[n - 1];
        if is_white_space(c) {
            if cur.len() > 0 {
                assert forall|k: int| 1 <= k < words.push(cur).len() implies starts_with_sign(
                    #[trigger] words.push(cur)[k],
                ) by {
                    if k < words.len() {
                        assert(words.push(cur)[k] == words[k]);
                    }
                }
            }
        } else {
            if words.len() >= 1 && cur.len() == 0 {
                assert(is_white_space(s[n - 2]));
                assert(s[n - 1] == '+' || s[n - 1] == '-');
            }
            assert(cur.len() > 0 ==> cur.push(c)[0] == cur[0]);
        }
    }
}

proof fn lemma_split_whitespace_signs(s: Seq<char>)
    requires
        spaces_before_signs(s),
    ensures
        forall|k: int|
            1 <= k < split_whitespace_spec(s).len() ==> starts_with_sign(
                #[trigger] split_whitespace_spec(s)[k],
            ),
{
    lemma_ws_scan_signs(s, s.len() as int);
    assert(s.take(s.len() as int) =~= s);
    let (words, cur) = ws_scan(s);
    if cur.len() > 0 {
        assert forall|k: int| 1 <= k < words.push(cur).len() implies starts_with_sign(
            #[trigger] words.push(cur)[k],
        ) by {
            if k < words.len() {
                assert(words.push(cur)[k] == words[k]);
            }
        }
    }
}

proof fn lemma_merge_scan_signs(tokens: Seq<Seq<char>>)
    requires
        forall|k: int| 0 <= k < tokens.len() ==> #[trigger] tokens[k].len() > 0,
        forall|k: int| 1 <= k < tokens.len() ==> starts_with_sign(#[trigger] tokens[k]),
    ensures
        merge_scan(tokens) matches Some((merged, pending)) ==> {
            &&& merged.len() <= tokens.len()
            &&& forall|k: int| 1 <= k < merged.len() ==> starts_with_sign(#[trigger] merged[k])
            &&& merged.len() >= 1 && pending.len() > 0 ==> starts_with_sign(pending)
        },
    decreases tokens.len(),
{
    if tokens.len() > 0 {
        let prev = tokens.drop_last();
        assert forall|k: int| 0 <= k < prev.len() implies #[trigger] prev[k].len() > 0 by {
            assert(prev[k] == tokens[k]);
        }
        assert forall|k: int| 1 <= k < prev.len() implies starts_with_sign(#[trigger] prev[k]) by {
            assert(prev[k] == tokens[k]);
        }
        lemma_merge_scan_signs(prev);
        if let Some((merged, pending)) = merge_scan(prev) {
            let t = tokens.last();
            let p = pending + t;
            assert(t == tokens[tokens.len() - 1]);
            assert(t.len() > 0);
            if pending.len() > 0 {
                assert(p[0] == pending[0]);
            } else {
                assert(p[0] == t[0]);
            }
            assert(merged.len() >= 1 ==> starts_with_sign(p));
            assert forall|k: int| 1 <= k < merged.push(p).len() implies starts_with_sign(
                #[trigger] merged.push(p)[k],
            ) by {
                if k < merged.len() {
                    assert(merged.push(p)[k] == merged[k]);
                }
            }
        }
    }
}

proof fn lemma_terms_signs_of_side(side: Seq<char>)
    requires
        spaces_before_signs(side),
        tokens_nest(side),
    ensures
        forall|k: int|
            1 <= k < identify_spec(side).len() ==> starts_with_sign(
                #[trigger] identify_spec(side)[k].0,
            ),
{
    let tokens = split_whitespace_spec(side);
    crate::text::lemma_split_whitespace_words(side);
    lemma_split_whitespace_signs(side);
    lemma_merge_scan_signs(tokens);
    lemma_identify_values(side);
    let (merged, pending) = merge_scan(tokens)->0;
    let terms = merge_spec(tokens);
    assert forall|k: int| 1 <= k < identify_spec(side).len() implies starts_with_sign(
        #[trigger] identify_spec(side)[k].0,
    ) by {
        assert(term_values(identify_spec(side))[k] == identify_spec(side)[k].0);
        assert(terms[k] == identify_spec(side)[k].0);
        if k < merged.len() {
            assert(terms[k] == merged[k]);
        }
    }
}

/// Signs stay attached to their terms: where the only white space of an
/// equation is the space character, every term of a side but the first
/// begins with `+` or `-`.
pub proof fn lemma_terms_start_with_sign(equation: Seq<char>)
    requires
        is_mappable(equation),
        only_spaces_white(equation),
    ensures
        ({
            let c = clean_spec(equation);
            if c.contains('=') {
                &&& forall|k: int|
                    1 <= k < identify_spec(left_of_equals(c)).len() ==> starts_with_sign(
                        #[trigger] identify_spec(left_of_equals(c))[k].0,
                    )
                &&& forall|k: int|
                    1 <= k < identify_spec(right_of_equals(c)).len() ==> starts_with_sign(
                        #[trigger] identify_spec(right_of_equals(c))[k].0,
                    )
            } else {
                forall|k: int|
                    1 <= k < identify_spec(c).len() ==> starts_with_sign(
                        #[trigger] identify_spec(c)[k].0,
                    )
            }
        }),
{
    let c = clean_spec(equation);
    lemma_trim_only_spaces(equation);
    lemma_parse_equation_spaces_before_signs(trim_spec(equation));
    if c.contains('=') {
        lemma_sides_before_signs(c);
        lemma_terms_signs_of_side(left_of_equals(c));
        lemma_terms_signs_of_side(right_of_equals(c));
    } else {
        lemma_terms_signs_of_side(c);
    }
}

proof fn lemma_signs_spaced_sign_after_space(x: Seq<char>)
    ensures
        forall|j: int|
            0 <= j < signs_spaced(x).len() && (#[trigger] signs_spaced(x)[j] == '+'
                || signs_spaced(x)[j] == '-') ==> j >= 1 && signs_spaced(x)[j - 1] == ' ',
    decreases x.len(),
{
    if x.len() > 0 {
        lemma_signs_spaced_sign_after_space(x.drop_last());
        let p = signs_spaced(x.drop_last());
        let c = x.last();
        if c == '+' || c == '-' {
            let q = p.push(' ').push(c);
            assert forall|j: int| 0 <= j < q.len() && (#[trigger] q[j] == '+' || q[j] == '-') implies j
                >= 1 && q[j - 1] == ' ' by {
                if j < p.len() {
                    assert(q[j] == p[j]);
                    assert(q[j - 1] == p[j - 1]);
                }
            }
        } else {
            let q = p.push(c);
            assert forall|j: int| 0 <= j < q.len() && (#[trigger] q[j] == '+' || q[j] == '-') implies j
                >= 1 && q[j - 1] == ' ' by {
                assert(q[j] == p[j]);
                assert(q[j - 1] == p[j - 1]);
            }
        }
    }
}

proof fn lemma_signs_spaced_space_before_sign(x: Seq<char>)
    requires
        !x.contains(' '),
    ensures
        forall|j: int|
            0 <= j < signs_spaced(x).len() && #[trigger] signs_spaced(x)[j] == ' ' ==> j + 1
                < signs_spaced(x).len() && (signs_spaced(x)[j + 1] == '+' || signs_spaced(x)[j
                + 1] == '-'),
    decreases x.len(),
{
    if x.len() > 0 {
        assert(!x.drop_last().contains(' ')) by {
            if x.drop_last().contains(' ') {
                let i = choose|i: int| 0 <= i < x.drop_last().len() && x.drop_last()[i] == ' ';
                assert(x[i] == ' ');
            }
        }
        lemma_signs_spaced_space_before_sign(x.drop_last());
        let p = signs_spaced(x.drop_last());
        let c = x.last();
        assert(x[x.len() - 1] == c);
        if c == '+' || c == '-' {
            let q = p.push(' ').push(c);
            assert forall|j: int| 0 <= j < q.len() && #[trigger] q[j] == ' ' implies j + 1 < q.len()
                && (q[j + 1] == '+' || q[j + 1] == '-') by {
                if j < p.len() {
                    assert(q[j] == p[j]);
                    if j + 1 < p.len() {
                        assert(q[j + 1] == p[j + 1]);
                    }
                }
            }
        } else {
            let q = p.push(c);
            assert forall|j: int| 0 <= j < q.len() && #[trigger] q[j] == ' ' implies j + 1 < q.len()
                && (q[j + 1] == '+' || q[j + 1] == '-') by {
                assert(q[j] == p[j]);
                assert(q[j + 1] == p[j + 1]);
            }
        }
    }
}

/// `parse_equation` puts a space directly in front of every `+` and `-`
/// except one that begins the text, and nowhere else: every sign past the
/// first character has a space just before it, every space has a sign just
/// after it, and the text never begins with a space. Together with
/// `lemma_parse_equation_only_spaces` this fixes the result.
pub proof fn lemma_parse_equation_spaces_exactly_before_signs(s: Seq<char>)
    ensures
        forall|j: int|
            0 < j < parse_equation_spec(s).len() && (#[trigger] parse_equation_spec(s)[j] == '+'
                || parse_equation_spec(s)[j] == '-') ==> parse_equation_spec(s)[j - 1] == ' ',
        forall|j: int|
            0 <= j < parse_equation_spec(s).len() && #[trigger] parse_equation_spec(s)[j] == ' '
                ==> j + 1 < parse_equation_spec(s).len() && (parse_equation_spec(s)[j + 1] == '+'
                || parse_equation_spec(s)[j + 1] == '-'),
        parse_equation_spec(s).len() > 0 ==> parse_equation_spec(s)[0] != ' ',
{
    let line = without_spaces(s);
    lemma_without_spaces_no_space(s);
    lemma_signs_spaced_sign_after_space(line);
    lemma_signs_spaced_space_before_sign(line);
    let spaced = signs_spaced(line);
    let out = parse_equation_spec(s);
    if line.len() > 0 && (line[0] == '+' || line[0] == '-') {
        lemma_signs_spaced_first(line);
        assert forall|j: int| 0 < j < out.len() && (#[trigger] out[j] == '+' || out[j] == '-') implies out[j
            - 1] == ' ' by {
            assert(out[j] == spaced[j + 1]);
            assert(out[j - 1] == spaced[j]);
        }
        assert forall|j: int| 0 <= j < out.len() && #[trigger] out[j] == ' ' implies j + 1 < out.len() && (
        out[j + 1] == '+' || out[j + 1] == '-') by {
            assert(out[j] == spaced[j + 1]);
            assert(out[j + 1] == spaced[j + 2]);
        }
        if out.len() > 0 {
            assert(out[0] == spaced[1]);
            assert(spaced[0] == ' ');
        }
    } else {
        if line.len() > 0 {
            lemma_signs_spaced_first(line);
            assert(line[0] != ' ');
        }
    }
}

/// Text made only of `+` and `-` signs.
pub open spec fn all_signs(p: Seq<char>) -> bool {
    forall|i: int| 0 <= i < p.len() ==> (#[trigger] p[i] == '+' || p[i] == '-')
}

proof fn lemma_strip_signs_prefix(p: Seq<char>, x: Seq<char>)
    requires
        all_signs(p),
        x.len() == 0 || !(x[0] == '+' || x[0] == '-'),
    ensures
        strip_signs(p + x) == x,
    decreases p.len(),
{
    if p.len() == 0 {
        assert(p + x =~= x);
        if x.len() > 0 {
            assert(!(x[0] == '+' || x[0] == '-'));
        }
    } else {
        assert((p + x)[0] == p[0]);
        assert((p + x).drop_first() =~= p.drop_first() + x);
        assert(all_signs(p.drop_first())) by {
            assert forall|i: int| 0 <= i < p.drop_first().len() implies (#[trigger] p.drop_first()[i]
                == '+' || p.drop_first()[i] == '-') by {
                assert(p.drop_first()[i] == p[i + 1]);
            }
        }
        lemma_strip_signs_prefix(p.drop_first(), x);
    }
}

/// A term with `*` anywhere in it is a product.
pub proof fn lemma_classify_product(t: Seq<char>)
    requires
        t.contains('*'),
    ensures
        classify(t) == ElementKind::Multiplication,
{
}

/// A bracketed group with any signs in front and no `*` anywhere is a
/// bracket term, whatever it holds inside: `+(6/3)` and `-(x^2)` are
/// brackets.
pub proof fn lemma_classify_signed_bracket(p: Seq<char>, x: Seq<char>)
    requires
        all_signs(p),
        !x.contains('*'),
    ensures
        classify(p + seq!['('] + x + seq![')']) == ElementKind::Bracket,
{
    let g = seq!['('] + x + seq![')'];
    let t = p + seq!['('] + x + seq![')'];
    assert(t =~= p + g);
    assert(g[0] == '(');
    lemma_strip_signs_prefix(p, g);
    assert(g.last() == ')');
    assert(!t.contains('*')) by {
        if t.contains('*') {
            let i = choose|i: int| 0 <= i < t.len() && t[i] == '*';
            if i < p.len() {
                assert(t[i] == p[i]);
            } else if i > p.len() && i < p.len() + 1 + x.len() {
                assert(t[i] == x[i - p.len() - 1]);
            }
        }
    }
}

/// Signs in front of a non-empty run of ASCII digits and points make a
/// constant: `-7`, `+3.5`, `89`.
pub proof fn lemma_classify_number(p: Seq<char>, d: Seq<char>)
    requires
        all_signs(p),
        d.len() > 0,
        forall|i: int| 0 <= i < d.len() ==> (('0' <= #[trigger] d[i] && d[i] <= '9') || d[i] == '.'),
    ensures
        classify(p + d) == ElementKind::Constant,
{
    let t = p + d;
    lemma_strip_signs_prefix(p, d);
    assert(d[0] != '+' && d[0] != '-');
    assert forall|i: int| 0 <= i < t.len() implies #[trigger] t[i] != '*' && t[i] != '/' && t[i]
        != '^' && t[i] != '#' && t[i] != '(' && t[i] != ')' && t[i] != '[' && t[i] != ']' by {
        if i >= p.len() {
            assert(t[i] == d[i - p.len()]);
        } else {
            assert(t[i] == p[i]);
        }
    }
    assert(t.len() > 0);
    assert(t != seq!['(']) by {
        if t == seq!['('] {
            assert(t[0] == '(');
        }
    }
    assert(t != seq![')']) by {
        if t == seq![')'] {
            assert(t[0] == ')');
        }
    }
    assert(t != seq!['[']) by {
        if t == seq!['['] {
            assert(t[0] == '[');
        }
    }
    assert(t != seq![']']) by {
        if t == seq![']'] {
            assert(t[0] == ']');
        }
    }
}

/// Signs in front of a non-empty run of ASCII letters make a variable term.
pub proof fn lemma_classify_letters(p: Seq<char>, w: Seq<char>)
    requires
        all_signs(p),
        w.len() > 0,
        forall|i: int|
            0 <= i < w.len() ==> (('a' <= #[trigger] w[i] && w[i] <= 'z') || ('A' <= w[i] && w[i]
                <= 'Z')),
    ensures
        classify(p + w) == ElementKind::Variable,
{
    let t = p + w;
    lemma_strip_signs_prefix(p, w);
    assert forall|i: int| 0 <= i < t.len() implies #[trigger] t[i] != '*' && t[i] != '/' && t[i]
        != '^' && t[i] != '#' && t[i] != '(' && t[i] != ')' && t[i] != '[' && t[i] != ']' by {
        if i >= p.len() {
            assert(t[i] == w[i - p.len()]);
        } else {
            assert(t[i] == p[i]);
        }
    }
    assert(t.len() > 0);
    assert(t != seq!['(']) by {
        if t == seq!['('] {
            assert(t[0] == '(');
        }
    }
    assert(t != seq![')']) by {
        if t == seq![')'] {
            assert(t[0] == ')');
        }
    }
    assert(t != seq!['[']) by {
        if t == seq!['['] {
            assert(t[0] == '[');
        }
    }
    assert(t != seq![']']) by {
        if t == seq![']'] {
            assert(t[0] == ']');
        }
    }
    assert(!(('0' <= w[0] && w[0] <= '9') || w[0] == '.'));
}

/// A term with `/` and no `*` that is not one signed bracketed group is a
/// quotient: `-7/9`, `x/(2+1)`.
pub proof fn lemma_classify_quotient(p: Seq<char>, x: Seq<char>)
    requires
        all_signs(p),
        x.len() > 0,
        !(x[0] == '+' || x[0] == '-'),
        !(x[0] == '(' && x.last() == ')'),
        x.contains('/'),
        !x.contains('*'),
    ensures
        classify(p + x) == ElementKind::Fraction,
{
    let t = p + x;
    lemma_strip_signs_prefix(p, x);
    let k = choose|k: int| 0 <= k < x.len() && x[k] == '/';
    assert(t[p.len() + k] == '/');
    assert(!t.contains('*')) by {
        if t.contains('*') {
            let i = choose|i: int| 0 <= i < t.len() && t[i] == '*';
            if i < p.len() {
                assert(t[i] == p[i]);
            } else {
                assert(t[i] == x[i - p.len()]);
            }
        }
    }
    assert(t.len() >= 2 || t == x);
    assert(t != seq!['('] && t != seq![')'] && t != seq!['['] && t != seq![']']) by {
        if t.len() == 1 {
            assert(t[0] == '/');
        }
    }
}

/// Text with no white-space character.
pub open spec fn no_white_space(w: Seq<char>) -> bool {
    forall|i: int| 0 <= i < w.len() ==> !is_white_space(#[trigger] w[i])
}

proof fn lemma_count_char_concat(a: Seq<char>, b: Seq<char>, c: char)
    ensures
        count_char(a + b, c) == count_char(a, c) + count_char(b, c),
    decreases b.len(),
{
    if b.len() == 0 {
        assert(a + b =~= a);
    } else {
        assert((a + b).drop_last() =~= a + b.drop_last());
        lemma_count_char_concat(a, b.drop_last(), c);
    }
}

proof fn lemma_ws_scan_word(p: Seq<char>, w: Seq<char>)
    requires
        ws_scan(p).1.len() == 0,
        no_white_space(w),
    ensures
        ws_scan(p + w) == (ws_scan(p).0, w),
    decreases w.len(),
{
    if w.len() == 0 {
        assert(p + w =~= p);
    } else {
        assert(no_white_space(w.drop_last())) by {
            assert forall|i: int| 0 <= i < w.drop_last().len() implies !is_white_space(
                #[trigger] w.drop_last()[i],
            ) by {
                assert(w.drop_last()[i] == w[i]);
            }
        }
        lemma_ws_scan_word(p, w.drop_last());
        assert((p + w).drop_last() =~= p + w.drop_last());
        assert((p + w).last() == w[w.len() - 1]);
        assert(w.drop_last().push(w.last()) =~= w);
    }
}

proof fn lemma_words_of_one(w: Seq<char>)
    requires
        w.len() > 0,
        no_white_space(w),
    ensures
        split_whitespace_spec(w) == seq![w],
{
    assert(ws_scan(Seq::<char>::empty()).1.len() == 0);
    lemma_ws_scan_word(Seq::empty(), w);
    assert(Seq::<char>::empty() + w =~= w);
    assert(Seq::<Seq<char>>::empty().push(w) =~= seq![w]);
}

proof fn lemma_words_of_two(w1: Seq<char>, w2: Seq<char>)
    requires
        w1.len() > 0,
        w2.len() > 0,
        no_white_space(w1),
        no_white_space(w2),
    ensures
        split_whitespace_spec(w1 + seq![' '] + w2) == seq![w1, w2],
{
    assert(ws_scan(Seq::<char>::empty()).1.len() == 0);
    lemma_ws_scan_word(Seq::empty(), w1);
    assert(Seq::<char>::empty() + w1 =~= w1);
    let p = w1 + seq![' '];
    assert(p.drop_last() =~= w1);
    assert(p.last() == ' ');
    assert(ws_scan(p) == (seq![w1], Seq::<char>::empty())) by {
        assert(Seq::<Seq<char>>::empty().push(w1) =~= seq![w1]);
    }
    lemma_ws_scan_word(p, w2);
    assert(seq![w1].push(w2) =~= seq![w1, w2]);
}

/// A run of characters with no white space that never closes more brackets
/// than it opens is one whole term.
pub proof fn lemma_one_word_one_term(w: Seq<char>)
    requires
        w.len() > 0,
        no_white_space(w),
        count_char(w, ')') <= count_char(w, '('),
    ensures
        tokens_nest(w),
        term_values(identify_spec(w)) == seq![w],
{
    lemma_words_of_one(w);
    let toks = seq![w];
    assert(toks.drop_last() =~= Seq::<Seq<char>>::empty());
    assert(Seq::<char>::empty() + w =~= w);
    lemma_identify_values(w);
    let none = Seq::<Seq<char>>::empty();
    let blank = Seq::<char>::empty();
    assert(merge_scan(none) == Some((none, blank)));
    assert(blank + toks.last() =~= w);
    if count_char(w, ')') == count_char(w, '(') {
        assert(merge_scan(toks) == Some((none.push(w), blank)));
        assert(none.push(w) =~= seq![w]);
        assert(merge_spec(toks) == seq![w]);
    } else {
        assert(merge_scan(toks) == Some((none, w)));
        assert(none.push(w) =~= seq![w]);
        assert(merge_spec(toks) == seq![w]);
    }
}

/// Two words separated by a space are two terms where the first closes every
/// bracket it opens, and one term (the two glued together) where the first
/// leaves a bracket open that the second closes.
pub proof fn lemma_two_words_terms(w1: Seq<char>, w2: Seq<char>)
    requires
        w1.len() > 0,
        w2.len() > 0,
        no_white_space(w1),
        no_white_space(w2),
        count_char(w2, ')') <= count_char(w2, '('),
    ensures
        count_char(w1, ')') == count_char(w1, '(') ==> tokens_nest(w1 + seq![' '] + w2)
            && term_values(identify_spec(w1 + seq![' '] + w2)) == seq![w1, w2],
        count_char(w1, ')') < count_char(w1, '(') ==> tokens_nest(w1 + seq![' '] + w2)
            && term_values(identify_spec(w1 + seq![' '] + w2)) == seq![w1 + w2],
{
    let s = w1 + seq![' '] + w2;
    lemma_words_of_two(w1, w2);
    lemma_identify_values(s);
    let toks = seq![w1, w2];
    let first = seq![w1];
    assert(toks.drop_last() =~= first);
    assert(toks.last() == w2);
    assert(first.drop_last() =~= Seq::<Seq<char>>::empty());
    assert(Seq::<char>::empty() + w1 =~= w1);
    assert(Seq::<char>::empty() + w2 =~= w2);
    lemma_count_char_concat(w1, w2, ')');
    lemma_count_char_concat(w1, w2, '(');
    let none = Seq::<Seq<char>>::empty();
    let blank = Seq::<char>::empty();
    assert(merge_scan(none) == Some((none, blank)));
    assert(blank + first.last() =~= w1);
    assert(first.last() == w1);
    if count_char(w1, ')') == count_char(w1, '(') {
        assert(merge_scan(first) == Some((none.push(w1), blank)));
        assert(none.push(w1) =~= seq![w1]);
        assert(blank + w2 =~= w2);
        if count_char(w2, ')') == count_char(w2, '(') {
            assert(merge_scan(toks) == Some((seq![w1].push(w2), blank)));
        } else {
            assert(merge_scan(toks) == Some((seq![w1], w2)));
        }
        assert(seq![w1].push(w2) =~= seq![w1, w2]);
        assert(merge_spec(toks) == seq![w1, w2]);
    } else if count_char(w1, ')') < count_char(w1, '(') {
        assert(merge_scan(first) == Some((none, w1)));
        if count_char(w1 + w2, ')') == count_char(w1 + w2, '(') {
            assert(merge_scan(toks) == Some((none.push(w1 + w2), blank)));
        } else {
            assert(merge_scan(toks) == Some((none, w1 + w2)));
        }
        assert(none.push(w1 + w2) =~= seq![w1 + w2]);
        assert(merge_spec(toks) == seq![w1 + w2]);
    }
}

/// A term with no `*`, no `/`, `##` somewhere, and that is not one signed
/// bracketed group is an exponent term: `2##3`.
pub proof fn lemma_classify_exponent(p: Seq<char>, x: Seq<char>, k: int)
    requires
        all_signs(p),
        x.len() > 0,
        !(x[0] == '+' || x[0] == '-'),
        !(x[0] == '(' && x.last() == ')'),
        0 <= k < x.len() - 1,
        x[k] == '#' && x[k + 1] == '#',
        !x.contains('*'),
        !x.contains('/'),
    ensures
        classify(p + x) == ElementKind::Exponent,
{
    let t = p + x;
    lemma_strip_signs_prefix(p, x);
    assert(t[p.len() + k] == '#' && t[p.len() + k + 1] == '#');
    assert(!t.contains('*') && !t.contains('/')) by {
        if t.contains('*') || t.contains('/') {
            let i = choose|i: int| 0 <= i < t.len() && (t[i] == '*' || t[i] == '/');
            if i < p.len() {
                assert(t[i] == p[i]);
            } else {
                assert(t[i] == x[i - p.len()]);
            }
        }
    }
    assert(t.len() >= 2);
}

/// A term with no `*`, `/` or `##`, with `^` somewhere, and that is not one
/// signed bracketed group is a power term: `2^3`, `-x^2`.
pub proof fn lemma_classify_power(p: Seq<char>, x: Seq<char>)
    requires
        all_signs(p),
        x.len() > 0,
        !(x[0] == '+' || x[0] == '-'),
        !(x[0] == '(' && x.last() == ')'),
        x.contains('^'),
        !x.contains('*'),
        !x.contains('/'),
        !x.contains('#'),
    ensures
        classify(p + x) == ElementKind::Power,
{
    let t = p + x;
    lemma_strip_signs_prefix(p, x);
    let k = choose|k: int| 0 <= k < x.len() && x[k] == '^';
    assert(t[p.len() + k] == '^');
    assert(!t.contains('*') && !t.contains('/') && !t.contains('#')) by {
        if t.contains('*') || t.contains('/') || t.contains('#') {
            let i = choose|i: int| 0 <= i < t.len() && (t[i] == '*' || t[i] == '/' || t[i] == '#');
            if i < p.len() {
                assert(t[i] == p[i]);
            } else {
                assert(t[i] == x[i - p.len()]);
            }
        }
    }
    assert(!has_double_hash(t)) by {
        if has_double_hash(t) {
            let i = choose|i: int| 0 <= i < t.len() - 1 && #[trigger] t[i] == '#' && t[i + 1] == '#';
            assert(t.contains('#'));
        }
    }
    assert(t != seq!['('] && t != seq![')'] && t != seq!['['] && t != seq![']']) by {
        if t.len() == 1 {
            assert(t[0] == '^');
        }
    }
}

/// A lone bracket is a bracket term.
pub proof fn lemma_classify_lone_bracket(c: char)
    requires
        c == '(' || c == ')' || c == '[' || c == ']',
    ensures
        classify(seq![c]) == ElementKind::Bracket,
{
    assert(!seq![c].contains('*')) by {
        if seq![c].contains('*') {
            assert(seq![c][0] == c);
        }
    }
}

proof fn lemma_signs_spaced_head(s: Seq<char>)
    requires
        s.len() > 0,
        s[0] == '+' || s[0] == '-',
    ensures
        signs_spaced(s).len() >= 2,
        signs_spaced(s)[1] == s[0],
    decreases s.len(),
{
    let prev = signs_spaced(s.drop_last());
    if s.len() > 1 {
        lemma_signs_spaced_head(s.drop_last());
        assert(s.drop_last()[0] == s[0]);
        assert(prev.push(' ').push(s.last())[1] == prev[1]);
        assert(prev.push(s.last())[1] == prev[1]);
    } else {
        assert(prev.len() == 0);
        assert(prev.push(' ').push(s.last())[1] == s.last());
    }
}

proof fn lemma_without_spaces_head(s: Seq<char>)
    requires
        s.len() > 0,
        s[0] != ' ',
    ensures
        without_spaces(s).len() > 0,
        without_spaces(s)[0] == s[0],
    decreases s.len(),
{
    if s.len() > 1 {
        lemma_without_spaces_head(s.drop_last());
        assert(s.drop_last()[0] == s[0]);
        let w = without_spaces(s.drop_last());
        assert(w.push(s.last())[0] == w[0]);
    } else {
        assert(without_spaces(s.drop_last()).len() == 0);
    }
}

proof fn lemma_trim_start_at(s: Seq<char>, k: int)
    requires
        0 <= k <= s.len(),
        forall|i: int| 0 <= i < k ==> is_white_space(#[trigger] s[i]),
        k < s.len() ==> !is_white_space(s[k]),
    ensures
        trim_start_spec(s) == s.skip(k),
    decreases k,
{
    if k == 0 {
        assert(s.skip(0) =~= s);
    } else {
        assert(is_white_space(s[0]));
        assert forall|i: int| 0 <= i < k - 1 implies is_white_space(#[trigger] s.drop_first()[i]) by {
            assert(s.drop_first()[i] == s[i + 1]);
            assert(is_white_space(s[i + 1]));
        }
        if k < s.len() {
            assert(s.drop_first()[k - 1] == s[k]);
        }
        lemma_trim_start_at(s.drop_first(), k - 1);
        assert(s.drop_first().skip(k - 1) =~= s.skip(k));
    }
}

proof fn lemma_trim_end_head(t: Seq<char>)
    requires
        t.len() > 0,
        !is_white_space(t[0]),
    ensures
        trim_end_spec(t).len() > 0,
        trim_end_spec(t)[0] == t[0],
    decreases t.len(),
{
    if t.len() > 1 && is_white_space(t.last()) {
        assert(t.drop_last()[0] == t[0]);
        lemma_trim_end_head(t.drop_last());
    }
}

/// Cleaning an equation keeps its first visible character first: where the
/// first character that is not white space is `eq[k]`, the cleaned text
/// begins with it, and a text of white space alone cleans to nothing.
pub proof fn lemma_clean_first_char(equation: Seq<char>, k: int)
    requires
        0 <= k <= equation.len(),
        forall|i: int| 0 <= i < k ==> is_white_space(#[trigger] equation[i]),
        k < equation.len() ==> !is_white_space(equation[k]),
    ensures
        k < equation.len() ==> clean_spec(equation).len() > 0 && clean_spec(equation)[0]
            == equation[k],
        k == equation.len() ==> clean_spec(equation).len() == 0,
{
    lemma_trim_start_at(equation, k);
    let u = equation.skip(k);
    if k < equation.len() {
        assert(u[0] == equation[k]);
        lemma_trim_end_head(u);
        let t = trim_spec(equation);
        assert(t[0] != ' ');
        lemma_without_spaces_head(t);
        let line = without_spaces(t);
        if line[0] == '+' || line[0] == '-' {
            lemma_signs_spaced_head(line);
        } else {
            lemma_signs_spaced_first(line);
        }
    } else {
        assert(u.len() == 0);
        assert(trim_end_spec(u) == u);
        assert(without_spaces(trim_spec(equation)).len() == 0);
    }
}

/// `map_elements` refuses for a leading operator exactly the texts whose
/// first visible character is `*` or `/`.
pub proof fn lemma_leading_operator_refused(equation: Seq<char>, k: int)
    requires
        0 <= k < equation.len(),
        forall|i: int| 0 <= i < k ==> is_white_space(#[trigger] equation[i]),
        !is_white_space(equation[k]),
    ensures
        (equation[k] == '*' || equation[k] == '/') <==> map_error(equation) == Some(
            MapError::StartsWithOperator,
        ),
{
    lemma_clean_first_char(equation, k);
}

proof fn lemma_without_white_space_concat(a: Seq<char>, b: Seq<char>)
    ensures
        without_white_space(a + b) == without_white_space(a) + without_white_space(b),
    decreases b.len(),
{
    if b.len() == 0 {
        assert(a + b =~= a);
        assert(without_white_space(a) + without_white_space(b) =~= without_white_space(a));
    } else {
        assert((a + b).drop_last() =~= a + b.drop_last());
        lemma_without_white_space_concat(a, b.drop_last());
        if !is_white_space(b.last()) {
            assert(without_white_space(a) + without_white_space(b.drop_last()).push(b.last())
                =~= (without_white_space(a) + without_white_space(b.drop_last())).push(b.last()));
        }
    }
}

proof fn lemma_without_white_space_of_spaces(s: Seq<char>)
    ensures
        without_white_space(without_spaces(s)) == without_white_space(s),
    decreases s.len(),
{
    if s.len() > 0 {
        lemma_without_white_space_of_spaces(s.drop_last());
        if s.last() != ' ' {
            let w = without_spaces(s.drop_last());
            assert(w.push(s.last()).drop_last() =~= w);
        }
    }
}

proof fn lemma_without_white_space_all_white(s: Seq<char>)
    requires
        forall|i: int| 0 <= i < s.len() ==> is_white_space(#[trigger] s[i]),
    ensures
        without_white_space(s).len() == 0,
    decreases s.len(),
{
    if s.len() > 0 {
        assert(is_white_space(s[s.len() - 1]));
        assert forall|i: int| 0 <= i < s.drop_last().len() implies is_white_space(
            #[trigger] s.drop_last()[i],
        ) by {
            assert(s.drop_last()[i] == s[i]);
        }
        lemma_without_white_space_all_white(s.drop_last());
    }
}

proof fn lemma_trim_only_white(s: Seq<char>)
    ensures
        without_white_space(trim_spec(s)) == without_white_space(s),
{
    let a = lemma_trim_start_suffix(s);
    let u = s.skip(a);
    let b = lemma_trim_end_prefix(u);
    lemma_trim_start_prefix_white(s, a);
    lemma_trim_end_suffix_white(u, b);
    assert(s =~= s.take(a) + u);
    assert(u =~= u.take(b) + u.skip(b));
    lemma_without_white_space_concat(s.take(a), u);
    lemma_without_white_space_concat(u.take(b), u.skip(b));
    lemma_without_white_space_all_white(s.take(a));
    lemma_without_white_space_all_white(u.skip(b));
    assert(Seq::<char>::empty() + without_white_space(u) =~= without_white_space(u));
    assert(without_white_space(u.take(b)) + Seq::<char>::empty() =~= without_white_space(
        u.take(b),
    ));
}

proof fn lemma_trim_start_prefix_white(s: Seq<char>, a: int)
    requires
        0 <= a <= s.len(),
        trim_start_spec(s) == s.skip(a),
    ensures
        forall|i: int| 0 <= i < a ==> is_white_space(#[trigger] s[i]),
    decreases s.len(),
{
    if s.len() > 0 && is_white_space(s[0]) {
        let k = lemma_trim_start_suffix(s.drop_first());
        assert(s.drop_first().skip(k) =~= s.skip(k + 1));
        assert(s.skip(k + 1).len() == s.skip(a).len());
        assert(k + 1 == a);
        lemma_trim_start_prefix_white(s.drop_first(), k);
        assert forall|i: int| 0 <= i < a implies is_white_space(#[trigger] s[i]) by {
            if i > 0 {
                assert(s[i] == s.drop_first()[i - 1]);
            }
        }
    } else {
        assert(s.skip(a).len() == s.len());
    }
}

proof fn lemma_trim_end_suffix_white(u: Seq<char>, b: int)
    requires
        0 <= b <= u.len(),
        trim_end_spec(u) == u.take(b),
    ensures
        forall|i: int| b <= i < u.len() ==> is_white_space(#[trigger] u[i]),
    decreases u.len(),
{
    if u.len() > 0 && is_white_space(u.last()) {
        let k = lemma_trim_end_prefix(u.drop_last());
        assert(u.drop_last().take(k) =~= u.take(k));
        assert(k == b);
        lemma_trim_end_suffix_white(u.drop_last(), k);
        assert forall|i: int| b <= i < u.len() implies is_white_space(#[trigger] u[i]) by {
            if i < u.len() - 1 {
                assert(u[i] == u.drop_last()[i]);
            }
        }
    } else {
        assert(u.take(b).len() == u.len());
    }
}

/// Cleaning an equation changes nothing but white space: the cleaned text
/// and the equation are the same once their white space is removed. In
/// particular cleaning keeps every `=`, so `map_elements` refuses two `=`
/// exactly where the equation holds two.
pub proof fn lemma_clean_only_white_space(equation: Seq<char>)
    ensures
        without_white_space(clean_spec(equation)) == without_white_space(equation),
        count_char(clean_spec(equation), '=') == count_char(equation, '='),
{
    let t = trim_spec(equation);
    lemma_trim_only_white(equation);
    lemma_parse_equation_only_spaces(t);
    lemma_without_white_space_of_spaces(clean_spec(equation));
    lemma_without_white_space_of_spaces(t);
    lemma_count_equals_white(clean_spec(equation));
    lemma_count_equals_white(equation);
}

proof fn lemma_count_equals_white(s: Seq<char>)
    ensures
        count_char(without_white_space(s), '=') == count_char(s, '='),
    decreases s.len(),
{
    if s.len() > 0 {
        lemma_count_equals_white(s.drop_last());
        if !is_white_space(s.last()) {
            let w = without_white_space(s.drop_last());
            assert(w.push(s.last()).drop_last() =~= w);
        }
    }
}

/// An equation splits at its first `=`: for a left side `x` with no `=` in
/// it, the text `x=y` has `x` before the `=` and `y` after it, whatever `y`
/// holds.
pub proof fn lemma_split_at_first_equals(x: Seq<char>, y: Seq<char>)
    requires
        !x.contains('='),
    ensures
        (x + seq!['='] + y).contains('='),
        left_of_equals(x + seq!['='] + y) == x,
        right_of_equals(x + seq!['='] + y) == y,
{
    let s = x + seq!['='] + y;
    assert(s[x.len() as int] == '=');
    assert forall|j: int| 0 <= j < x.len() implies s[j] != '=' by {
        assert(s[j] == x[j]);
    }
    lemma_first_index(s, '=', x.len() as int);
    assert(s.take(x.len() as int) =~= x);
    assert(s.skip(x.len() as int + 1) =~= y);
}

} // verus!
