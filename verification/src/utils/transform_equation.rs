//! Reading an algebraic expression such as `2x^2 + 3(x - 1)` into a syntax
//! tree: the tokenizer, the recursive-descent parser, and the split of an
//! input into an expression or the two sides of an equation. Numbers stay as
//! the text they were written with.
use vstd::prelude::*;
use crate::utils::element_seperator::{find_char, left_of_equals, right_of_equals, subrange_chars};
use crate::text::{
    char_is_alphabetic, chars_of, is_alphabetic, string_from_chars, trim_chars, trim_spec,
};

verus! {

/// A token as the specifications see it.
pub enum SpecTok {
    Number(Seq<char>),
    Variable(Seq<char>),
    Plus,
    Minus,
    Mul,
    Div,
    Pow,
    LParen,
    RParen,
    Eof,
}

/// A token of an expression. A number keeps the digits and points it was
/// written with.
#[derive(Clone, Debug, PartialEq)]
pub enum Tok {
    Number(String),
    Variable(String),
    Plus,
    Minus,
    Mul,
    Div,
    Pow,
    LParen,
    RParen,
    EOF,
}

impl View for Tok {
    type V = SpecTok;

    open spec fn view(&self) -> SpecTok {
        match self {
            Tok::Number(s) => SpecTok::Number(s@),
            Tok::Variable(s) => SpecTok::Variable(s@),
            Tok::Plus => SpecTok::Plus,
            Tok::Minus => SpecTok::Minus,
            Tok::Mul => SpecTok::Mul,
            Tok::Div => SpecTok::Div,
            Tok::Pow => SpecTok::Pow,
            Tok::LParen => SpecTok::LParen,
            Tok::RParen => SpecTok::RParen,
            Tok::EOF => SpecTok::Eof,
        }
    }
}

/// The tokens of a vector as the specifications see them.
pub open spec fn toks_view(v: Seq<Tok>) -> Seq<SpecTok> {
    v.map_values(|t: Tok| t@)
}

/// A character of a number: an ASCII digit or a point.
pub open spec fn is_number_char(c: char) -> bool {
    ('0' <= c && c <= '9') || c == '.'
}

/// A character that the tokenizer skips as space.
pub open spec fn is_blank(c: char) -> bool {
    c == ' ' || c == '\t' || c == '\n' || c == '\r'
}

/// The token of an operator or bracket character.
pub open spec fn operator_spec(c: char) -> Option<SpecTok> {
    if c == '+' {
        Some(SpecTok::Plus)
    } else if c == '-' {
        Some(SpecTok::Minus)
    } else if c == '*' {
        Some(SpecTok::Mul)
    } else if c == '/' {
        Some(SpecTok::Div)
    } else if c == '^' {
        Some(SpecTok::Pow)
    } else if c == '(' {
        Some(SpecTok::LParen)
    } else if c == ')' {
        Some(SpecTok::RParen)
    } else {
        None
    }
}

/// The length of the run of number characters that `s` starts with.
pub open spec fn number_run(s: Seq<char>) -> nat
    decreases s.len(),
{
    if s.len() > 0 && is_number_char(s[0]) {
        1 + number_run(s.drop_first())
    } else {
        0
    }
}

/// The length of the run of alphabetic characters that `s` starts with.
pub open spec fn alpha_run(s: Seq<char>) -> nat
    decreases s.len(),
{
    if s.len() > 0 && is_alphabetic(s[0]) {
        1 + alpha_run(s.drop_first())
    } else {
        0
    }
}

pub proof fn lemma_number_run_bound(s: Seq<char>)
    ensures
        number_run(s) <= s.len(),
    decreases s.len(),
{
    if s.len() > 0 {
        lemma_number_run_bound(s.drop_first());
    }
}

pub proof fn lemma_alpha_run_bound(s: Seq<char>)
    ensures
        alpha_run(s) <= s.len(),
    decreases s.len(),
{
    if s.len() > 0 {
        lemma_alpha_run_bound(s.drop_first());
    }
}

/// The tokens of `s`, without the end marker: blanks are skipped, each
/// operator and bracket is a token, a run of digits and points is a number,
/// a run of alphabetic characters is a variable, and any other character is
/// skipped.
pub open spec fn lex(s: Seq<char>) -> Seq<SpecTok>
    decreases s.len(),
{
    if s.len() == 0 {
        Seq::empty()
    } else {
        let c = s[0];
        let rest = s.drop_first();
        if is_blank(c) {
            lex(rest)
        } else if let Some(op) = operator_spec(c) {
            seq![op] + lex(rest)
        } else if is_number_char(c) {
            let n = number_run(s);
            proof {
                lemma_number_run_bound(s);
            }
            seq![SpecTok::Number(s.take(n as int))] + lex(s.skip(n as int))
        } else if is_alphabetic(c) {
            let n = alpha_run(s);
            proof {
                lemma_alpha_run_bound(s);
            }
            seq![SpecTok::Variable(s.take(n as int))] + lex(s.skip(n as int))
        } else {
            lex(rest)
        }
    }
}

/// What `tokenize` gives back: the tokens of `s` and then the end marker.
pub open spec fn tokenize_spec(s: Seq<char>) -> Seq<SpecTok> {
    lex(s).push(SpecTok::Eof)
}

fn operator_token(c: char) -> (t: Option<Tok>)
    ensures
        t matches Some(tok) ==> operator_spec(c) == Some(tok@),
        t is None <==> operator_spec(c) is None,
{
    if c == '+' {
        Some(Tok::Plus)
    } else if c == '-' {
        Some(Tok::Minus)
    } else if c == '*' {
        Some(Tok::Mul)
    } else if c == '/' {
        Some(Tok::Div)
    } else if c == '^' {
        Some(Tok::Pow)
    } else if c == '(' {
        Some(Tok::LParen)
    } else if c == ')' {
        Some(Tok::RParen)
    } else {
        None
    }
}

/// Splits an expression into tokens, ending with `EOF`.
pub fn tokenize(s: &str) -> (tokens: Vec<Tok>)
    ensures
        toks_view(tokens@) == tokenize_spec(s@),
{
    let chars = chars_of(s);
    let n = chars.len();
    let mut tokens: Vec<Tok> = Vec::new();
    let mut i: usize = 0;
    assert(chars@.skip(0) =~= chars@);
    while i < n
        invariant
            i <= n,
            n == chars@.len(),
            chars@ == s@,
            toks_view(tokens@) + lex(chars@.skip(i as int)) == lex(s@),
        decreases n - i,
    {
        let ghost rest = chars@.skip(i as int);
        let ghost old_toks = toks_view(tokens@);
        let c = chars[i];
        assert(rest[0] == c);
        assert(rest.drop_first() =~= chars@.skip(i + 1));
        if c == ' ' || c == '\t' || c == '\n' || c == '\r' {
            i = i + 1;
        } else if let Some(tok) = operator_token(c) {
            tokens.push(tok);
            assert(toks_view(tokens@) =~= old_toks.push(tok@));
            assert(old_toks.push(tok@) + lex(chars@.skip(i + 1)) =~= old_toks + (seq![tok@]
                + lex(chars@.skip(i + 1))));
            i = i + 1;
        } else if ('0' <= c && c <= '9') || c == '.' {
            let mut run: Vec<char> = Vec::new();
            let mut j: usize = i;
            while j < n && (('0' <= chars[j] && chars[j] <= '9') || chars[j] == '.')
                invariant
                    i <= j <= n,
                    n == chars@.len(),
                    run@ == chars@.subrange(i as int, j as int),
                    number_run(chars@.skip(i as int)) == (j - i) + number_run(
                        chars@.skip(j as int),
                    ),
                decreases n - j,
            {
                assert(chars@.skip(j as int).drop_first() =~= chars@.skip(j + 1));
                run.push(chars[j]);
                assert(run@ =~= chars@.subrange(i as int, j + 1));
                j = j + 1;
            }
            assert(number_run(chars@.skip(j as int)) == 0);
            assert(rest.take((j - i) as int) =~= run@);
            assert(rest.skip((j - i) as int) =~= chars@.skip(j as int));
            let tok = Tok::Number(string_from_chars(&run));
            tokens.push(tok);
            assert(toks_view(tokens@) =~= old_toks.push(tok@));
            assert(old_toks.push(tok@) + lex(chars@.skip(j as int)) =~= old_toks + (seq![tok@]
                + lex(chars@.skip(j as int))));
            i = j;
        } else if char_is_alphabetic(c) {
            let mut run: Vec<char> = Vec::new();
            let mut j: usize = i;
            while j < n && char_is_alphabetic(chars[j])
                invariant
                    i <= j <= n,
                    n == chars@.len(),
                    run@ == chars@.subrange(i as int, j as int),
                    alpha_run(chars@.skip(i as int)) == (j - i) + alpha_run(
                        chars@.skip(j as int),
                    ),
                decreases n - j,
            {
                assert(chars@.skip(j as int).drop_first() =~= chars@.skip(j + 1));
                run.push(chars[j]);
                assert(run@ =~= chars@.subrange(i as int, j + 1));
                j = j + 1;
            }
            assert(alpha_run(chars@.skip(j as int)) == 0);
            assert(rest.take((j - i) as int) =~= run@);
            assert(rest.skip((j - i) as int) =~= chars@.skip(j as int));
            let tok = Tok::Variable(string_from_chars(&run));
            tokens.push(tok);
            assert(toks_view(tokens@) =~= old_toks.push(tok@));
            assert(old_toks.push(tok@) + lex(chars@.skip(j as int)) =~= old_toks + (seq![tok@]
                + lex(chars@.skip(j as int))));
            i = j;
        } else {
            i = i + 1;
        }
    }
    assert(chars@.skip(n as int) =~= Seq::<char>::empty());
    assert(toks_view(tokens@) + lex(Seq::<char>::empty()) =~= toks_view(tokens@));
    let ghost before = toks_view(tokens@);
    tokens.push(Tok::EOF);
    assert(toks_view(tokens@) =~= before.push(SpecTok::Eof));
    tokens
}

/// A syntax tree as the specifications see it.
pub enum SpecExpr {
    Num(Seq<char>),
    Var(Seq<char>),
    Add(Box<SpecExpr>, Box<SpecExpr>),
    Sub(Box<SpecExpr>, Box<SpecExpr>),
    Mul(Box<SpecExpr>, Box<SpecExpr>),
    Div(Box<SpecExpr>, Box<SpecExpr>),
    Pow(Box<SpecExpr>, Box<SpecExpr>),
    Neg(Box<SpecExpr>),
}

/// The syntax tree of an expression. A number keeps the text it was written
/// with.
#[derive(Debug, PartialEq)]
pub enum Expr {
    Num(String),
    Var(String),
    Add(Box<Expr>, Box<Expr>),
    Sub(Box<Expr>, Box<Expr>),
    Mul(Box<Expr>, Box<Expr>),
    Div(Box<Expr>, Box<Expr>),
    Pow(Box<Expr>, Box<Expr>),
    Neg(Box<Expr>),
}

impl View for Expr {
    type V = SpecExpr;

    open spec fn view(&self) -> SpecExpr
        decreases self,
    {
        match self {
            Expr::Num(s) => SpecExpr::Num(s@),
            Expr::Var(s) => SpecExpr::Var(s@),
            Expr::Add(a, b) => SpecExpr::Add(Box::new((**a).view()), Box::new((**b).view())),
            Expr::Sub(a, b) => SpecExpr::Sub(Box::new((**a).view()), Box::new((**b).view())),
            Expr::Mul(a, b) => SpecExpr::Mul(Box::new((**a).view()), Box::new((**b).view())),
            Expr::Div(a, b) => SpecExpr::Div(Box::new((**a).view()), Box::new((**b).view())),
            Expr::Pow(a, b) => SpecExpr::Pow(Box::new((**a).view()), Box::new((**b).view())),
            Expr::Neg(a) => SpecExpr::Neg(Box::new((**a).view())),
        }
    }
}

/// A copy of a syntax tree.
pub fn clone_expr(e: &Expr) -> (r: Expr)
    ensures
        r@ == e@,
    decreases e,
{
    match e {
        Expr::Num(s) => Expr::Num(s.clone()),
        Expr::Var(s) => Expr::Var(s.clone()),
        Expr::Add(a, b) => Expr::Add(Box::new(clone_expr(a)), Box::new(clone_expr(b))),
        Expr::Sub(a, b) => Expr::Sub(Box::new(clone_expr(a)), Box::new(clone_expr(b))),
        Expr::Mul(a, b) => Expr::Mul(Box::new(clone_expr(a)), Box::new(clone_expr(b))),
        Expr::Div(a, b) => Expr::Div(Box::new(clone_expr(a)), Box::new(clone_expr(b))),
        Expr::Pow(a, b) => Expr::Pow(Box::new(clone_expr(a)), Box::new(clone_expr(b))),
        Expr::Neg(a) => Expr::Neg(Box::new(clone_expr(a))),
    }
}

impl Clone for Expr {
    fn clone(&self) -> (r: Self)
        ensures
            r@ == self@,
    {
        clone_expr(self)
    }
}

/// The token at `pos`, or the end marker past the end.
pub open spec fn tok_at(t: Seq<SpecTok>, pos: int) -> SpecTok {
    if 0 <= pos < t.len() {
        t[pos]
    } else {
        SpecTok::Eof
    }
}

/// How many tokens are left from `pos` on.
pub open spec fn remaining(t: Seq<SpecTok>, pos: int) -> nat {
    if pos < t.len() {
        (t.len() - pos) as nat
    } else {
        0
    }
}

/// A token that a factor can start with, which makes an implicit product.
pub open spec fn starts_factor(tok: SpecTok) -> bool {
    tok is Number || tok is Variable || tok is LParen
}

/// The zero that stands for a missing operand.
pub open spec fn zero_spec() -> SpecExpr {
    SpecExpr::Num("0"@)
}

/// `expr := term (('+' | '-') term)*`: the tree read from `pos` and how many
/// tokens it takes.
pub open spec fn parse_expr_spec(t: Seq<SpecTok>, pos: int) -> (SpecExpr, nat)
    decreases remaining(t, pos), 6nat,
{
    let (left, c1) = parse_term_spec(t, pos);
    let (e, c2) = parse_expr_tail_spec(t, pos + c1, left);
    (e, c1 + c2)
}

/// The additions and subtractions that follow `left` at `pos`, applied from
/// left to right.
pub open spec fn parse_expr_tail_spec(t: Seq<SpecTok>, pos: int, left: SpecExpr) -> (
    SpecExpr,
    nat,
)
    decreases remaining(t, pos), 5nat,
{
    match tok_at(t, pos) {
        SpecTok::Plus => {
            let (right, c1) = parse_term_spec(t, pos + 1);
            let (e, c2) = parse_expr_tail_spec(
                t,
                pos + 1 + c1,
                SpecExpr::Add(Box::new(left), Box::new(right)),
            );
            (e, 1 + c1 + c2)
        },
        SpecTok::Minus => {
            let (right, c1) = parse_term_spec(t, pos + 1);
            let (e, c2) = parse_expr_tail_spec(
                t,
                pos + 1 + c1,
                SpecExpr::Sub(Box::new(left), Box::new(right)),
            );
            (e, 1 + c1 + c2)
        },
        _ => (left, 0),
    }
}

/// `term := power (('*' | '/') power)*`.
pub open spec fn parse_term_spec(t: Seq<SpecTok>, pos: int) -> (SpecExpr, nat)
    decreases remaining(t, pos), 4nat,
{
    let (left, c1) = parse_power_spec(t, pos);
    let (e, c2) = parse_term_tail_spec(t, pos + c1, left);
    (e, c1 + c2)
}

/// The products and quotients that follow `left` at `pos`, applied from left
/// to right.
pub open spec fn parse_term_tail_spec(t: Seq<SpecTok>, pos: int, left: SpecExpr) -> (
    SpecExpr,
    nat,
)
    decreases remaining(t, pos), 3nat,
{
    match tok_at(t, pos) {
        SpecTok::Mul => {
            let (right, c1) = parse_power_spec(t, pos + 1);
            let (e, c2) = parse_term_tail_spec(
                t,
                pos + 1 + c1,
                SpecExpr::Mul(Box::new(left), Box::new(right)),
            );
            (e, 1 + c1 + c2)
        },
        SpecTok::Div => {
            let (right, c1) = parse_power_spec(t, pos + 1);
            let (e, c2) = parse_term_tail_spec(
                t,
                pos + 1 + c1,
                SpecExpr::Div(Box::new(left), Box::new(right)),
            );
            (e, 1 + c1 + c2)
        },
        _ => (left, 0),
    }
}

/// `power := factor ('^' power)?`, so that `^` groups to the right.
pub open spec fn parse_power_spec(t: Seq<SpecTok>, pos: int) -> (SpecExpr, nat)
    decreases remaining(t, pos), 1nat,
{
    let (left, c1) = parse_factor_spec(t, pos);
    if tok_at(t, pos + c1) is Pow {
        let (right, c2) = parse_power_spec(t, pos + c1 + 1);
        (SpecExpr::Pow(Box::new(left), Box::new(right)), c1 + 1 + c2)
    } else {
        (left, c1)
    }
}

/// `factor`: a number, a variable or a bracketed expression, each multiplied
/// by a power that follows at once (`2x`, `2(x+1)`, `3y^2` as `3 * y^2`,
/// `x(y+1)`, `(a+b)(c+d)`); a negated factor; or, for any other token, zero,
/// taking that token unless it is the end.
pub open spec fn parse_factor_spec(t: Seq<SpecTok>, pos: int) -> (SpecExpr, nat)
    decreases remaining(t, pos), 0nat,
{
    match tok_at(t, pos) {
        SpecTok::Number(n) => {
            let (e, c) = implicit_product_spec(t, pos + 1, SpecExpr::Num(n));
            (e, 1 + c)
        },
        SpecTok::Variable(v) => {
            let (e, c) = implicit_product_spec(t, pos + 1, SpecExpr::Var(v));
            (e, 1 + c)
        },
        SpecTok::LParen => {
            let (inner, c1) = parse_expr_spec(t, pos + 1);
            let c2: nat = if tok_at(t, pos + 1 + c1) is RParen {
                1
            } else {
                0
            };
            let (e, c3) = implicit_product_spec(t, pos + 1 + c1 + c2, inner);
            (e, 1 + c1 + c2 + c3)
        },
        SpecTok::Minus => {
            let (inner, c) = parse_factor_spec(t, pos + 1);
            (SpecExpr::Neg(Box::new(inner)), 1 + c)
        },
        SpecTok::Eof => (zero_spec(), 0),
        _ => (zero_spec(), 1),
    }
}

/// `left` times the power that follows at `pos` where a factor starts there
/// (an implicit product, so that `3y^2` is `3 * y^2`), else `left` alone.
pub open spec fn implicit_product_spec(t: Seq<SpecTok>, pos: int, left: SpecExpr) -> (
    SpecExpr,
    nat,
)
    decreases remaining(t, pos), 2nat,
{
    if starts_factor(tok_at(t, pos)) {
        let (right, c) = parse_power_spec(t, pos);
        (SpecExpr::Mul(Box::new(left), Box::new(right)), c)
    } else {
        (left, 0)
    }
}

/// The tree that `parse` reads from `s`.
pub open spec fn parse_spec(s: Seq<char>) -> SpecExpr {
    parse_expr_spec(tokenize_spec(s), 0).0
}

/// Tokens that the parser reads: the end marker last and nowhere else.
pub open spec fn tokens_wf(t: Seq<SpecTok>) -> bool {
    &&& t.len() > 0
    &&& t.last() is Eof
    &&& forall|i: int| 0 <= i < t.len() - 1 ==> !(#[trigger] t[i] is Eof)
}

/// No token that the lexer reads is the end marker.
pub proof fn lemma_lex_no_eof(s: Seq<char>)
    ensures
        forall|i: int| 0 <= i < lex(s).len() ==> !(#[trigger] lex(s)[i] is Eof),
    decreases s.len(),
{
    if s.len() > 0 {
        let c = s[0];
        let rest = s.drop_first();
        if is_blank(c) {
            lemma_lex_no_eof(rest);
        } else if let Some(op) = operator_spec(c) {
            lemma_lex_no_eof(rest);
            assert forall|i: int| 0 <= i < lex(s).len() implies !(#[trigger] lex(s)[i] is Eof) by {
                if i > 0 {
                    assert(lex(s)[i] == lex(rest)[i - 1]);
                }
            }
        } else if is_number_char(c) {
            lemma_number_run_bound(s);
            let n = number_run(s);
            lemma_lex_no_eof(s.skip(n as int));
            assert forall|i: int| 0 <= i < lex(s).len() implies !(#[trigger] lex(s)[i] is Eof) by {
                if i > 0 {
                    assert(lex(s)[i] == lex(s.skip(n as int))[i - 1]);
                }
            }
        } else if is_alphabetic(c) {
            lemma_alpha_run_bound(s);
            let n = alpha_run(s);
            lemma_lex_no_eof(s.skip(n as int));
            assert forall|i: int| 0 <= i < lex(s).len() implies !(#[trigger] lex(s)[i] is Eof) by {
                if i > 0 {
                    assert(lex(s)[i] == lex(s.skip(n as int))[i - 1]);
                }
            }
        } else {
            lemma_lex_no_eof(rest);
        }
    }
}

/// The tokens of any text end with the end marker, which stands nowhere else.
pub proof fn lemma_tokenize_wf(s: Seq<char>)
    ensures
        tokens_wf(tokenize_spec(s)),
{
    lemma_lex_no_eof(s);
    let t = tokenize_spec(s);
    assert forall|i: int| 0 <= i < t.len() - 1 implies !(#[trigger] t[i] is Eof) by {
        assert(t[i] == lex(s)[i]);
    }
}

/// A recursive-descent reader over a token list.
pub struct Parser {
    tokens: Vec<Tok>,
    pos: usize,
}

impl Parser {
    /// The tokens, as the specifications see them.
    pub closed spec fn toks(&self) -> Seq<SpecTok> {
        toks_view(self.tokens@)
    }

    /// The position of the next token.
    pub closed spec fn position(&self) -> int {
        self.pos as int
    }

    /// The tokens end with the end marker and the position is on a token.
    pub closed spec fn wf(&self) -> bool {
        tokens_wf(self.toks()) && self.pos < self.tokens@.len()
    }

    /// A parser at the first of `tokens`.
    pub fn new(tokens: Vec<Tok>) -> (p: Self)
        ensures
            p.toks() == toks_view(tokens@),
            p.position() == 0,
            tokens_wf(toks_view(tokens@)) ==> p.wf(),
    {
        Parser { tokens, pos: 0 }
    }

    fn peek(&self) -> (t: &Tok)
        requires
            self.wf(),
        ensures
            t@ == tok_at(self.toks(), self.position()),
    {
        &self.tokens[self.pos]
    }

    fn advance(&mut self)
        requires
            old(self).wf(),
        ensures
            final(self).wf(),
            final(self).toks() == old(self).toks(),
            final(self).position() == if tok_at(old(self).toks(), old(self).position()) is Eof {
                old(self).position()
            } else {
                old(self).position() + 1
            },
    {
        if self.pos < self.tokens.len() - 1 {
            self.pos = self.pos + 1;
        }
    }

    fn at_additive(&self) -> (b: bool)
        requires
            self.wf(),
        ensures
            b == (tok_at(self.toks(), self.position()) is Plus || tok_at(
                self.toks(),
                self.position(),
            ) is Minus),
    {
        match self.peek() {
            Tok::Plus | Tok::Minus => true,
            _ => false,
        }
    }

    fn at_multiplicative(&self) -> (b: bool)
        requires
            self.wf(),
        ensures
            b == (tok_at(self.toks(), self.position()) is Mul || tok_at(
                self.toks(),
                self.position(),
            ) is Div),
    {
        match self.peek() {
            Tok::Mul | Tok::Div => true,
            _ => false,
        }
    }

    fn parse(&mut self) -> (e: Expr)
        requires
            old(self).wf(),
        ensures
            final(self).wf(),
            final(self).toks() == old(self).toks(),
            old(self).position() <= final(self).position(),
            parse_expr_spec(old(self).toks(), old(self).position()) == (
                e@,
                (final(self).position() - old(self).position()) as nat,
            ),
    {
        self.parse_expr()
    }

    fn parse_expr(&mut self) -> (e: Expr)
        requires
            old(self).wf(),
        ensures
            final(self).wf(),
            final(self).toks() == old(self).toks(),
            old(self).position() <= final(self).position(),
            parse_expr_spec(old(self).toks(), old(self).position()) == (
                e@,
                (final(self).position() - old(self).position()) as nat,
            ),
        decreases remaining(old(self).toks(), old(self).position()), 6nat,
    {
        let ghost t = self.toks();
        let ghost p0 = self.position();
        let ghost target = parse_expr_spec(t, p0);
        let mut left = self.parse_term();
        while self.at_additive()
            invariant
                self.wf(),
                self.toks() == t,
                t == old(self).toks(),
                p0 == old(self).position(),
                p0 <= self.position(),
                remaining(t, self.position()) <= remaining(t, p0),
                parse_expr_tail_spec(t, self.position(), left@).0 == target.0,
                self.position() + parse_expr_tail_spec(t, self.position(), left@).1 == p0
                    + target.1,
            decreases self.tokens@.len() - self.pos,
        {
            let is_plus = match self.peek() {
                Tok::Plus => true,
                _ => false,
            };
            self.advance();
            let right = self.parse_term();
            left = if is_plus {
                Expr::Add(Box::new(left), Box::new(right))
            } else {
                Expr::Sub(Box::new(left), Box::new(right))
            };
        }
        left
    }

    fn parse_term(&mut self) -> (e: Expr)
        requires
            old(self).wf(),
        ensures
            final(self).wf(),
            final(self).toks() == old(self).toks(),
            old(self).position() <= final(self).position(),
            parse_term_spec(old(self).toks(), old(self).position()) == (
                e@,
                (final(self).position() - old(self).position()) as nat,
            ),
        decreases remaining(old(self).toks(), old(self).position()), 4nat,
    {
        let ghost t = self.toks();
        let ghost p0 = self.position();
        let ghost target = parse_term_spec(t, p0);
        let mut left = self.parse_power();
        while self.at_multiplicative()
            invariant
                self.wf(),
                self.toks() == t,
                t == old(self).toks(),
                p0 == old(self).position(),
                p0 <= self.position(),
                remaining(t, self.position()) <= remaining(t, p0),
                parse_term_tail_spec(t, self.position(), left@).0 == target.0,
                self.position() + parse_term_tail_spec(t, self.position(), left@).1 == p0
                    + target.1,
            decreases self.tokens@.len() - self.pos,
        {
            let is_mul = match self.peek() {
                Tok::Mul => true,
                _ => false,
            };
            self.advance();
            let right = self.parse_power();
            left = if is_mul {
                Expr::Mul(Box::new(left), Box::new(right))
            } else {
                Expr::Div(Box::new(left), Box::new(right))
            };
        }
        left
    }

    fn parse_power(&mut self) -> (e: Expr)
        requires
            old(self).wf(),
        ensures
            final(self).wf(),
            final(self).toks() == old(self).toks(),
            old(self).position() <= final(self).position(),
            parse_power_spec(old(self).toks(), old(self).position()) == (
                e@,
                (final(self).position() - old(self).position()) as nat,
            ),
        decreases remaining(old(self).toks(), old(self).position()), 1nat,
    {
        let left = self.parse_factor();
        let is_pow = match self.peek() {
            Tok::Pow => true,
            _ => false,
        };
        if is_pow {
            self.advance();
            let right = self.parse_power();
            Expr::Pow(Box::new(left), Box::new(right))
        } else {
            left
        }
    }

    fn parse_factor(&mut self) -> (e: Expr)
        requires
            old(self).wf(),
        ensures
            final(self).wf(),
            final(self).toks() == old(self).toks(),
            old(self).position() <= final(self).position(),
            parse_factor_spec(old(self).toks(), old(self).position()) == (
                e@,
                (final(self).position() - old(self).position()) as nat,
            ),
        decreases remaining(old(self).toks(), old(self).position()), 0nat,
    {
        match self.peek() {
            Tok::Number(n) => {
                let val = n.clone();
                self.advance();
                self.implicit_product(Expr::Num(val))
            },
            Tok::Variable(v) => {
                let name = v.clone();
                self.advance();
                self.implicit_product(Expr::Var(name))
            },
            Tok::LParen => {
                self.advance();
                let inner = self.parse_expr();
                let closes = match self.peek() {
                    Tok::RParen => true,
                    _ => false,
                };
                if closes {
                    self.advance();
                }
                self.implicit_product(inner)
            },
            Tok::Minus => {
                self.advance();
                let inner = self.parse_factor();
                Expr::Neg(Box::new(inner))
            },
            _ => {
                self.advance();
                Expr::Num(String::from_str("0"))
            },
        }
    }

    fn implicit_product(&mut self, left: Expr) -> (e: Expr)
        requires
            old(self).wf(),
        ensures
            final(self).wf(),
            final(self).toks() == old(self).toks(),
            old(self).position() <= final(self).position(),
            implicit_product_spec(old(self).toks(), old(self).position(), left@) == (
                e@,
                (final(self).position() - old(self).position()) as nat,
            ),
        decreases remaining(old(self).toks(), old(self).position()), 2nat,
    {
        if self.is_implicit_mul_follows() {
            let right = self.parse_power();
            Expr::Mul(Box::new(left), Box::new(right))
        } else {
            left
        }
    }

    fn is_implicit_mul_follows(&self) -> (b: bool)
        requires
            self.wf(),
        ensures
            b == starts_factor(tok_at(self.toks(), self.position())),
    {
        match self.peek() {
            Tok::Variable(_) | Tok::Number(_) | Tok::LParen => true,
            _ => false,
        }
    }
}

/// Reads an expression into its syntax tree: `+`, `-` from left to right
/// below `*`, `/` from left to right below `^` to the right, with implicit
/// products such as `2x` and `(a+b)(c+d)`.
pub fn parse(s: &str) -> (e: Expr)
    ensures
        e@ == parse_spec(s@),
{
    let tokens = tokenize(s);
    proof {
        lemma_tokenize_wf(s@);
    }
    let mut parser = Parser::new(tokens);
    parser.parse()
}

/// What `transform_equation` is asked to do with its input.
#[derive(Debug, PartialEq)]
pub enum TransformInput {
    /// The input is blank.
    Empty,
    /// The input is an expression, trimmed.
    Expression(String),
    /// The input is an equation: its two sides, each trimmed.
    Equation(String, String),
}

/// Tells a blank input, an expression and an equation apart. The input is
/// trimmed; an equation is split at its first `=`, and each side trimmed.
pub fn split_transform_input(input: &str) -> (r: TransformInput)
    ensures
        trim_spec(input@).len() == 0 ==> r is Empty,
        trim_spec(input@).len() > 0 && !trim_spec(input@).contains('=') ==> (r matches TransformInput::Expression(e) && e@ == trim_spec(input@)),
        trim_spec(input@).len() > 0 && trim_spec(input@).contains('=') ==> (r matches TransformInput::Equation(left, right) && left@ == trim_spec(left_of_equals(trim_spec(input@))) && right@ == trim_spec(right_of_equals(trim_spec(input@)))),
{
    let chars = chars_of(input);
    let trimmed = trim_chars(&chars);
    if trimmed.len() == 0 {
        return TransformInput::Empty;
    }
    let k = find_char(&trimmed, '=');
    if k < trimmed.len() {
        let left = subrange_chars(&trimmed, 0, k);
        let right = subrange_chars(&trimmed, k + 1, trimmed.len());
        assert(left@ =~= left_of_equals(trimmed@));
        assert(right@ =~= right_of_equals(trimmed@));
        let left_trimmed = trim_chars(&left);
        let right_trimmed = trim_chars(&right);
        TransformInput::Equation(string_from_chars(&left_trimmed), string_from_chars(&right_trimmed))
    } else {
        TransformInput::Expression(string_from_chars(&trimmed))
    }
}

/// The greatest common divisor by Euclid's algorithm: `gcd(a, 0) = a` and
/// `gcd(a, b) = gcd(b, a % b)`.
pub open spec fn gcd_spec(a: nat, b: nat) -> nat
    decreases b,
{
    if b == 0 {
        a
    } else {
        gcd_spec(b, a % b)
    }
}

/// The greatest common divisor of two whole numbers, by Euclid's algorithm
/// (zero only where both are zero).
pub fn euclid_gcd(a: u64, b: u64) -> (g: u64)
    ensures
        g == gcd_spec(a as nat, b as nat),
{
    if a == 0 {
        if b > 0 {
            proof {
                vstd::arithmetic::div_mod::lemma_small_mod(0, b as nat);
            }
            assert(gcd_spec(0, b as nat) == gcd_spec(b as nat, 0));
        }
        return b;
    }
    if b == 0 {
        return a;
    }
    let mut x = a;
    let mut y = b;
    while y != 0
        invariant
            gcd_spec(x as nat, y as nat) == gcd_spec(a as nat, b as nat),
        decreases y,
    {
        let t = y;
        y = x % y;
        x = t;
    }
    x
}

/// Text written with ASCII digits and points only, at least one.
pub open spec fn is_number_text(d: Seq<char>) -> bool {
    d.len() > 0 && forall|i: int| 0 <= i < d.len() ==> (('0' <= #[trigger] d[i] && d[i] <= '9') || d[i] == '.')
}

proof fn lemma_number_run_of(d: Seq<char>, rest: Seq<char>)
    requires
        is_number_text(d) || d.len() == 0,
        forall|i: int| 0 <= i < d.len() ==> (('0' <= #[trigger] d[i] && d[i] <= '9') || d[i] == '.'),
        rest.len() == 0 || !(('0' <= rest[0] && rest[0] <= '9') || rest[0] == '.'),
    ensures
        number_run(d + rest) == d.len(),
    decreases d.len(),
{
    if d.len() == 0 {
        assert(d + rest =~= rest);
        if rest.len() > 0 {
            assert(!is_number_char(rest[0]));
        }
    } else {
        assert((d + rest)[0] == d[0]);
        assert((d + rest).drop_first() =~= d.drop_first() + rest);
        assert forall|i: int| 0 <= i < d.drop_first().len() implies (('0' <= #[trigger] d.drop_first()[i]
            && d.drop_first()[i] <= '9') || d.drop_first()[i] == '.') by {
            assert(d.drop_first()[i] == d[i + 1]);
        }
        lemma_number_run_of(d.drop_first(), rest);
    }
}

proof fn lemma_lex_number_then(d: Seq<char>, rest: Seq<char>)
    requires
        is_number_text(d),
        rest.len() == 0 || !(('0' <= rest[0] && rest[0] <= '9') || rest[0] == '.'),
    ensures
        lex(d + rest) == seq![SpecTok::Number(d)] + lex(rest),
{
    lemma_number_run_of(d, rest);
    let s = d + rest;
    assert(s[0] == d[0]);
    assert(s.take(d.len() as int) =~= d);
    assert(s.skip(d.len() as int) =~= rest);
}

/// A run of digits and points is one number token: the tokens of such a
/// text are that number and the end marker.
pub proof fn lemma_tokenize_number_text(d: Seq<char>)
    requires
        is_number_text(d),
    ensures
        tokenize_spec(d) == seq![SpecTok::Number(d), SpecTok::Eof],
{
    lemma_lex_number_then(d, Seq::empty());
    assert(d + Seq::<char>::empty() =~= d);
    assert(seq![SpecTok::Number(d)] + lex(Seq::<char>::empty()) =~= seq![SpecTok::Number(d)]);
}

/// The text of a token: a number's or variable's characters, an operator's
/// or bracket's character, and nothing for the end marker.
pub open spec fn token_text(t: SpecTok) -> Seq<char> {
    match t {
        SpecTok::Number(x) => x,
        SpecTok::Variable(x) => x,
        SpecTok::Plus => seq!['+'],
        SpecTok::Minus => seq!['-'],
        SpecTok::Mul => seq!['*'],
        SpecTok::Div => seq!['/'],
        SpecTok::Pow => seq!['^'],
        SpecTok::LParen => seq!['('],
        SpecTok::RParen => seq![')'],
        SpecTok::Eof => Seq::empty(),
    }
}

/// The texts of tokens written one after the other.
pub open spec fn tokens_text(ts: Seq<SpecTok>) -> Seq<char>
    decreases ts.len(),
{
    if ts.len() == 0 {
        Seq::empty()
    } else {
        token_text(ts[0]) + tokens_text(ts.drop_first())
    }
}

/// A character that a token keeps: a digit, a point, an operator, a bracket,
/// or an alphabetic character, unless it is a space, tab, newline or return.
pub open spec fn kept_char(c: char) -> bool {
    !(c == ' ' || c == '\t' || c == '\n' || c == '\r') && (('0' <= c && c <= '9') || c == '.'
        || c == '+' || c == '-' || c == '*' || c == '/' || c == '^' || c == '(' || c == ')'
        || is_alphabetic(c))
}

/// The characters of `s` that tokens keep, in order.
pub open spec fn kept_chars(s: Seq<char>) -> Seq<char>
    decreases s.len(),
{
    if s.len() == 0 {
        Seq::empty()
    } else if kept_char(s[0]) {
        seq![s[0]] + kept_chars(s.drop_first())
    } else {
        kept_chars(s.drop_first())
    }
}

proof fn lemma_tokens_text_concat(a: Seq<SpecTok>, b: Seq<SpecTok>)
    ensures
        tokens_text(a + b) == tokens_text(a) + tokens_text(b),
    decreases a.len(),
{
    if a.len() == 0 {
        assert(a + b =~= b);
        assert(Seq::<char>::empty() + tokens_text(b) =~= tokens_text(b));
    } else {
        assert((a + b)[0] == a[0]);
        assert((a + b).drop_first() =~= a.drop_first() + b);
        lemma_tokens_text_concat(a.drop_first(), b);
        assert(token_text(a[0]) + (tokens_text(a.drop_first()) + tokens_text(b)) =~= token_text(
            a[0],
        ) + tokens_text(a.drop_first()) + tokens_text(b));
    }
}

proof fn lemma_tokens_text_single(t: SpecTok)
    ensures
        tokens_text(seq![t]) == token_text(t),
{
    let one = seq![t];
    assert(one[0] == t);
    assert(one.drop_first() =~= Seq::<SpecTok>::empty());
    assert(tokens_text(one.drop_first()) == Seq::<char>::empty());
    assert(token_text(t) + Seq::<char>::empty() =~= token_text(t));
}

proof fn lemma_kept_chars_run(s: Seq<char>, n: int)
    requires
        0 <= n <= s.len(),
        forall|i: int| 0 <= i < n ==> #[trigger] kept_char(s[i]),
    ensures
        kept_chars(s) == s.take(n) + kept_chars(s.skip(n)),
    decreases n,
{
    if n == 0 {
        assert(s.skip(0) =~= s);
        assert(s.take(0) + kept_chars(s) =~= kept_chars(s));
    } else {
        assert(kept_char(s[0]));
        assert forall|i: int| 0 <= i < n - 1 implies #[trigger] kept_char(s.drop_first()[i]) by {
            assert(s.drop_first()[i] == s[i + 1]);
            assert(kept_char(s[i + 1]));
        }
        lemma_kept_chars_run(s.drop_first(), n - 1);
        assert(s.drop_first().skip(n - 1) =~= s.skip(n));
        assert(seq![s[0]] + (s.drop_first().take(n - 1) + kept_chars(s.skip(n))) =~= s.take(n)
            + kept_chars(s.skip(n)));
    }
}

proof fn lemma_number_run_chars(s: Seq<char>)
    ensures
        forall|i: int|
            0 <= i < number_run(s) ==> ('0' <= #[trigger] s[i] && s[i] <= '9') || s[i] == '.',
    decreases s.len(),
{
    lemma_number_run_bound(s);
    if s.len() > 0 && is_number_char(s[0]) {
        lemma_number_run_chars(s.drop_first());
        assert forall|i: int| 0 <= i < number_run(s) implies ('0' <= #[trigger] s[i] && s[i]
            <= '9') || s[i] == '.' by {
            if i > 0 {
                assert(s[i] == s.drop_first()[i - 1]);
            }
        }
    }
}

proof fn lemma_alpha_run_chars(s: Seq<char>)
    ensures
        forall|i: int| 0 <= i < alpha_run(s) ==> is_alphabetic(#[trigger] s[i]),
    decreases s.len(),
{
    lemma_alpha_run_bound(s);
    if s.len() > 0 && is_alphabetic(s[0]) {
        lemma_alpha_run_chars(s.drop_first());
        assert forall|i: int| 0 <= i < alpha_run(s) implies is_alphabetic(#[trigger] s[i]) by {
            if i > 0 {
                assert(s[i] == s.drop_first()[i - 1]);
            }
        }
    }
}

/// No blank of `s` counts as alphabetic.
pub open spec fn no_alphabetic_blank(s: Seq<char>) -> bool {
    forall|i: int| 0 <= i < s.len() && is_blank(#[trigger] s[i]) ==> !is_alphabetic(s[i])
}

proof fn lemma_no_alphabetic_blank_skip(s: Seq<char>, k: int)
    requires
        no_alphabetic_blank(s),
        0 <= k <= s.len(),
    ensures
        no_alphabetic_blank(s.skip(k)),
{
    assert forall|i: int| 0 <= i < s.skip(k).len() && is_blank(#[trigger] s.skip(k)[i]) implies !is_alphabetic(
        s.skip(k)[i],
    ) by {
        assert(s.skip(k)[i] == s[k + i]);
    }
}

/// The tokenizer drops nothing but blanks and characters it does not know:
/// the texts of its tokens, one after the other, are the input's digits,
/// points, operators, brackets and alphabetic characters, in order. (The
/// condition that no blank of the input counts as alphabetic always holds:
/// `char_is_alphabetic` states it of every ASCII character.)
pub proof fn lemma_tokenize_keeps_text(s: Seq<char>)
    requires
        no_alphabetic_blank(s),
    ensures
        tokens_text(tokenize_spec(s)) == kept_chars(s),
    decreases s.len(),
{
    lemma_lex_keeps_text(s);
    lemma_tokens_text_concat(lex(s), seq![SpecTok::Eof]);
    assert(lex(s).push(SpecTok::Eof) =~= lex(s) + seq![SpecTok::Eof]);
    lemma_tokens_text_single(SpecTok::Eof);
    assert(kept_chars(s) + Seq::<char>::empty() =~= kept_chars(s));
}

proof fn lemma_lex_keeps_text(s: Seq<char>)
    requires
        no_alphabetic_blank(s),
    ensures
        tokens_text(lex(s)) == kept_chars(s),
    decreases s.len(),
{
    if s.len() > 0 {
        let c = s[0];
        let rest = s.drop_first();
        assert(rest =~= s.skip(1));
        lemma_no_alphabetic_blank_skip(s, 1);
        if is_blank(c) {
            lemma_lex_keeps_text(rest);
        } else if let Some(op) = operator_spec(c) {
            lemma_lex_keeps_text(rest);
            lemma_tokens_text_concat(seq![op], lex(rest));
            lemma_tokens_text_single(op);
        } else if is_number_char(c) {
            lemma_number_run_bound(s);
            let n = number_run(s);
            lemma_number_run_chars(s);
            lemma_no_alphabetic_blank_skip(s, n as int);
            lemma_lex_keeps_text(s.skip(n as int));
            assert forall|i: int| 0 <= i < n implies #[trigger] kept_char(s[i]) by {
                assert(('0' <= s[i] && s[i] <= '9') || s[i] == '.');
            }
            lemma_kept_chars_run(s, n as int);
            let tok = SpecTok::Number(s.take(n as int));
            lemma_tokens_text_concat(seq![tok], lex(s.skip(n as int)));
            lemma_tokens_text_single(tok);
        } else if is_alphabetic(c) {
            lemma_alpha_run_bound(s);
            let n = alpha_run(s);
            lemma_alpha_run_chars(s);
            lemma_no_alphabetic_blank_skip(s, n as int);
            lemma_lex_keeps_text(s.skip(n as int));
            assert forall|i: int| 0 <= i < n implies #[trigger] kept_char(s[i]) by {
                assert(is_alphabetic(s[i]));
            }
            lemma_kept_chars_run(s, n as int);
            let tok = SpecTok::Variable(s.take(n as int));
            lemma_tokens_text_concat(seq![tok], lex(s.skip(n as int)));
            lemma_tokens_text_single(tok);
        } else {
            lemma_lex_keeps_text(rest);
        }
    }
}

/// The tree of two numbers joined by one of `+ - * / ^`.
pub open spec fn binary_tree(op: char, l: SpecExpr, r: SpecExpr) -> SpecExpr {
    if op == '+' {
        SpecExpr::Add(Box::new(l), Box::new(r))
    } else if op == '-' {
        SpecExpr::Sub(Box::new(l), Box::new(r))
    } else if op == '*' {
        SpecExpr::Mul(Box::new(l), Box::new(r))
    } else if op == '/' {
        SpecExpr::Div(Box::new(l), Box::new(r))
    } else {
        SpecExpr::Pow(Box::new(l), Box::new(r))
    }
}

/// One of the binary operator characters `+ - * / ^`.
pub open spec fn is_binary_op(op: char) -> bool {
    op == '+' || op == '-' || op == '*' || op == '/' || op == '^'
}

proof fn lemma_lex_operator_then(op: char, rest: Seq<char>)
    requires
        operator_spec(op) is Some,
    ensures
        lex(seq![op] + rest) == seq![operator_spec(op)->0] + lex(rest),
{
    let s = seq![op] + rest;
    assert(s[0] == op);
    assert(s.drop_first() =~= rest);
}

/// The tokens of `a op b` for numbers `a`, `b`.
proof fn lemma_tokens_of_binary(a: Seq<char>, op: char, b: Seq<char>)
    requires
        is_number_text(a),
        is_number_text(b),
        is_binary_op(op),
    ensures
        tokenize_spec(a + seq![op] + b) == seq![
            SpecTok::Number(a),
            operator_spec(op)->0,
            SpecTok::Number(b),
            SpecTok::Eof,
        ],
{
    let rest = seq![op] + b;
    assert(a + seq![op] + b =~= a + rest);
    assert(rest[0] == op);
    lemma_lex_number_then(a, rest);
    lemma_lex_operator_then(op, b);
    lemma_lex_number_then(b, Seq::empty());
    assert(b + Seq::<char>::empty() =~= b);
    assert(lex(Seq::<char>::empty()) =~= Seq::<SpecTok>::empty());
    assert(lex(b) =~= seq![SpecTok::Number(b)]);
    assert(lex(a + rest).push(SpecTok::Eof) =~= seq![
        SpecTok::Number(a),
        operator_spec(op)->0,
        SpecTok::Number(b),
        SpecTok::Eof,
    ]);
}

/// A binary operator between two numbers keeps its operands in order:
/// `a + b`, `a - b`, `a * b`, `a / b` and `a ^ b` read as that operator with
/// `a` on the left and `b` on the right.
pub proof fn lemma_parse_binary(a: Seq<char>, op: char, b: Seq<char>)
    requires
        is_number_text(a),
        is_number_text(b),
        is_binary_op(op),
    ensures
        parse_spec(a + seq![op] + b) == binary_tree(op, SpecExpr::Num(a), SpecExpr::Num(b)),
{
    lemma_tokens_of_binary(a, op, b);
    let t = tokenize_spec(a + seq![op] + b);
    let na = SpecExpr::Num(a);
    let nb = SpecExpr::Num(b);
    assert(tok_at(t, 0) == SpecTok::Number(a));
    assert(tok_at(t, 1) == operator_spec(op)->0);
    assert(tok_at(t, 2) == SpecTok::Number(b));
    assert(tok_at(t, 3) == SpecTok::Eof);
    assert(implicit_product_spec(t, 1, na) == (na, 0nat));
    assert(parse_factor_spec(t, 0) == (na, 1nat));
    assert(implicit_product_spec(t, 3, nb) == (nb, 0nat));
    assert(parse_factor_spec(t, 2) == (nb, 1nat));
    assert(parse_power_spec(t, 2) == (nb, 1nat));
    let e = binary_tree(op, na, nb);
    assert(parse_term_tail_spec(t, 3, e) == (e, 0nat));
    assert(parse_expr_tail_spec(t, 3, e) == (e, 0nat));
    if op == '^' {
        assert(parse_power_spec(t, 0) == (e, 3nat));
        assert(parse_term_spec(t, 0) == (e, 3nat));
    } else if op == '*' || op == '/' {
        assert(parse_power_spec(t, 0) == (na, 1nat));
        assert(parse_term_tail_spec(t, 1, na) == (e, 2nat));
        assert(parse_term_spec(t, 0) == (e, 3nat));
    } else {
        assert(parse_power_spec(t, 0) == (na, 1nat));
        assert(parse_term_tail_spec(t, 1, na) == (na, 0nat));
        assert(parse_term_spec(t, 0) == (na, 1nat));
        assert(parse_term_tail_spec(t, 3, nb) == (nb, 0nat));
        assert(parse_term_spec(t, 2) == (nb, 1nat));
        assert(parse_expr_tail_spec(t, 1, na) == (e, 2nat));
    }
    assert(parse_expr_spec(t, 0) == (e, 3nat));
}

/// How tightly an operator binds: `+ -` least, then `* /`, then `^`.
pub open spec fn binding(op: char) -> int {
    if op == '+' || op == '-' {
        1
    } else if op == '*' || op == '/' {
        2
    } else {
        3
    }
}

/// The tree of `a o1 b o2 c`: the second operator groups first where it
/// binds more tightly, or where both are `^` (which groups to the right);
/// otherwise the first does.
pub open spec fn ternary_tree(
    o1: char,
    o2: char,
    a: SpecExpr,
    b: SpecExpr,
    c: SpecExpr,
) -> SpecExpr {
    if binding(o1) < binding(o2) || (o1 == '^' && o2 == '^') {
        binary_tree(o1, a, binary_tree(o2, b, c))
    } else {
        binary_tree(o2, binary_tree(o1, a, b), c)
    }
}

/// The tokens of `a o1 b o2 c` for numbers `a`, `b`, `c`.
proof fn lemma_tokens_of_ternary(a: Seq<char>, o1: char, b: Seq<char>, o2: char, c: Seq<char>)
    requires
        is_number_text(a),
        is_number_text(b),
        is_number_text(c),
        is_binary_op(o1),
        is_binary_op(o2),
    ensures
        tokenize_spec(a + seq![o1] + b + seq![o2] + c) == seq![
            SpecTok::Number(a),
            operator_spec(o1)->0,
            SpecTok::Number(b),
            operator_spec(o2)->0,
            SpecTok::Number(c),
            SpecTok::Eof,
        ],
{
    let r2 = seq![o2] + c;
    let r1 = seq![o1] + (b + r2);
    assert(a + seq![o1] + b + seq![o2] + c =~= a + r1);
    assert(r1[0] == o1);
    assert(r2[0] == o2);
    lemma_lex_number_then(a, r1);
    lemma_lex_operator_then(o1, b + r2);
    lemma_lex_number_then(b, r2);
    lemma_lex_operator_then(o2, c);
    lemma_lex_number_then(c, Seq::empty());
    assert(c + Seq::<char>::empty() =~= c);
    assert(lex(Seq::<char>::empty()) =~= Seq::<SpecTok>::empty());
    assert(lex(c) =~= seq![SpecTok::Number(c)]);
    assert(lex(a + r1).push(SpecTok::Eof) =~= seq![
        SpecTok::Number(a),
        operator_spec(o1)->0,
        SpecTok::Number(b),
        operator_spec(o2)->0,
        SpecTok::Number(c),
        SpecTok::Eof,
    ]);
}

/// Precedence and grouping: in `a o1 b o2 c` the operator that binds more
/// tightly groups first, `+ -` and `* /` group to the left among
/// themselves, `^` groups to the right, and the numbers keep their order.
pub proof fn lemma_parse_ternary(a: Seq<char>, o1: char, b: Seq<char>, o2: char, c: Seq<char>)
    requires
        is_number_text(a),
        is_number_text(b),
        is_number_text(c),
        is_binary_op(o1),
        is_binary_op(o2),
    ensures
        parse_spec(a + seq![o1] + b + seq![o2] + c) == ternary_tree(
            o1,
            o2,
            SpecExpr::Num(a),
            SpecExpr::Num(b),
            SpecExpr::Num(c),
        ),
{
    lemma_tokens_of_ternary(a, o1, b, o2, c);
    let t = tokenize_spec(a + seq![o1] + b + seq![o2] + c);
    let na = SpecExpr::Num(a);
    let nb = SpecExpr::Num(b);
    let nc = SpecExpr::Num(c);
    assert(tok_at(t, 0) == SpecTok::Number(a));
    assert(tok_at(t, 1) == operator_spec(o1)->0);
    assert(tok_at(t, 2) == SpecTok::Number(b));
    assert(tok_at(t, 3) == operator_spec(o2)->0);
    assert(tok_at(t, 4) == SpecTok::Number(c));
    assert(tok_at(t, 5) == SpecTok::Eof);
    assert(implicit_product_spec(t, 1, na) == (na, 0nat));
    assert(parse_factor_spec(t, 0) == (na, 1nat));
    assert(implicit_product_spec(t, 3, nb) == (nb, 0nat));
    assert(parse_factor_spec(t, 2) == (nb, 1nat));
    assert(implicit_product_spec(t, 5, nc) == (nc, 0nat));
    assert(parse_factor_spec(t, 4) == (nc, 1nat));
    assert(parse_power_spec(t, 4) == (nc, 1nat));
    let ab = binary_tree(o1, na, nb);
    let bc = binary_tree(o2, nb, nc);
    let e = ternary_tree(o1, o2, na, nb, nc);
    assert(parse_term_tail_spec(t, 5, e) == (e, 0nat));
    assert(parse_expr_tail_spec(t, 5, e) == (e, 0nat));
    if o2 == '^' {
        assert(parse_power_spec(t, 2) == (bc, 3nat));
    } else {
        assert(parse_power_spec(t, 2) == (nb, 1nat));
    }
    if o1 == '^' {
        if o2 == '^' {
            assert(parse_power_spec(t, 0) == (e, 5nat));
            assert(parse_term_spec(t, 0) == (e, 5nat));
        } else {
            assert(parse_power_spec(t, 0) == (ab, 3nat));
            if o2 == '*' || o2 == '/' {
                assert(parse_term_tail_spec(t, 3, ab) == (e, 2nat));
                assert(parse_term_spec(t, 0) == (e, 5nat));
            } else {
                assert(parse_term_tail_spec(t, 3, ab) == (ab, 0nat));
                assert(parse_term_spec(t, 0) == (ab, 3nat));
                assert(parse_term_tail_spec(t, 5, nc) == (nc, 0nat));
                assert(parse_term_spec(t, 4) == (nc, 1nat));
                assert(parse_expr_tail_spec(t, 3, ab) == (e, 2nat));
            }
        }
    } else if o1 == '*' || o1 == '/' {
        assert(parse_power_spec(t, 0) == (na, 1nat));
        if o2 == '^' {
            assert(parse_term_tail_spec(t, 5, e) == (e, 0nat));
            assert(parse_term_tail_spec(t, 1, na) == (e, 4nat));
            assert(parse_term_spec(t, 0) == (e, 5nat));
        } else if o2 == '*' || o2 == '/' {
            assert(parse_term_tail_spec(t, 3, ab) == (e, 2nat));
            assert(parse_term_tail_spec(t, 1, na) == (e, 4nat));
            assert(parse_term_spec(t, 0) == (e, 5nat));
        } else {
            assert(parse_term_tail_spec(t, 3, ab) == (ab, 0nat));
            assert(parse_term_tail_spec(t, 1, na) == (ab, 2nat));
            assert(parse_term_spec(t, 0) == (ab, 3nat));
            assert(parse_term_tail_spec(t, 5, nc) == (nc, 0nat));
            assert(parse_term_spec(t, 4) == (nc, 1nat));
            assert(parse_expr_tail_spec(t, 3, ab) == (e, 2nat));
        }
    } else {
        assert(parse_power_spec(t, 0) == (na, 1nat));
        assert(parse_term_tail_spec(t, 1, na) == (na, 0nat));
        assert(parse_term_spec(t, 0) == (na, 1nat));
        if o2 == '^' {
            assert(parse_term_tail_spec(t, 5, bc) == (bc, 0nat));
            assert(parse_term_spec(t, 2) == (bc, 3nat));
            assert(parse_expr_tail_spec(t, 1, na) == (e, 4nat));
        } else if o2 == '*' || o2 == '/' {
            assert(parse_term_tail_spec(t, 5, bc) == (bc, 0nat));
            assert(parse_term_tail_spec(t, 3, nb) == (bc, 2nat));
            assert(parse_term_spec(t, 2) == (bc, 3nat));
            assert(parse_expr_tail_spec(t, 1, na) == (e, 4nat));
        } else {
            assert(parse_term_tail_spec(t, 3, nb) == (nb, 0nat));
            assert(parse_term_spec(t, 2) == (nb, 1nat));
            assert(parse_term_tail_spec(t, 5, nc) == (nc, 0nat));
            assert(parse_term_spec(t, 4) == (nc, 1nat));
            assert(parse_expr_tail_spec(t, 3, ab) == (e, 2nat));
            assert(parse_expr_tail_spec(t, 1, na) == (e, 4nat));
        }
    }
    assert(parse_expr_spec(t, 0) == (e, 5nat));
}

/// A negated number reads as its negation.
pub proof fn lemma_parse_negation(a: Seq<char>)
    requires
        is_number_text(a),
    ensures
        parse_spec(seq!['-'] + a) == SpecExpr::Neg(Box::new(SpecExpr::Num(a))),
{
    lemma_lex_operator_then('-', a);
    lemma_lex_number_then(a, Seq::empty());
    assert(a + Seq::<char>::empty() =~= a);
    assert(lex(Seq::<char>::empty()) =~= Seq::<SpecTok>::empty());
    let t = tokenize_spec(seq!['-'] + a);
    assert(t =~= seq![SpecTok::Minus, SpecTok::Number(a), SpecTok::Eof]);
    let na = SpecExpr::Num(a);
    let e = SpecExpr::Neg(Box::new(na));
    assert(tok_at(t, 2) == SpecTok::Eof);
    assert(implicit_product_spec(t, 2, na) == (na, 0nat));
    assert(parse_factor_spec(t, 1) == (na, 1nat));
    assert(parse_factor_spec(t, 0) == (e, 2nat));
    assert(parse_power_spec(t, 0) == (e, 2nat));
    assert(parse_term_tail_spec(t, 2, e) == (e, 0nat));
    assert(parse_term_spec(t, 0) == (e, 2nat));
    assert(parse_expr_tail_spec(t, 2, e) == (e, 0nat));
}

proof fn lemma_tokens_of_bracket_power(a: Seq<char>, b: Seq<char>, c: Seq<char>)
    requires
        is_number_text(a),
        is_number_text(b),
        is_number_text(c),
    ensures
        tokenize_spec(a + seq!['('] + b + seq![')', '^'] + c) == seq![
            SpecTok::Number(a),
            SpecTok::LParen,
            SpecTok::Number(b),
            SpecTok::RParen,
            SpecTok::Pow,
            SpecTok::Number(c),
            SpecTok::Eof,
        ],
{
    let r4 = seq!['^'] + c;
    let r3 = seq![')'] + r4;
    let r1 = seq!['('] + (b + r3);
    assert(a + seq!['('] + b + seq![')', '^'] + c =~= a + r1);
    assert(r1[0] == '(');
    lemma_lex_number_then(a, r1);
    lemma_lex_operator_then('(', b + r3);
    assert(r3[0] == ')');
    lemma_lex_number_then(b, r3);
    lemma_lex_operator_then(')', r4);
    lemma_lex_operator_then('^', c);
    lemma_lex_number_then(c, Seq::empty());
    assert(c + Seq::<char>::empty() =~= c);
    assert(lex(Seq::<char>::empty()) =~= Seq::<SpecTok>::empty());
    assert(lex(a + r1).push(SpecTok::Eof) =~= seq![
        SpecTok::Number(a),
        SpecTok::LParen,
        SpecTok::Number(b),
        SpecTok::RParen,
        SpecTok::Pow,
        SpecTok::Number(c),
        SpecTok::Eof,
    ]);
}

proof fn lemma_tokens_of_bracket(a: Seq<char>, b: Seq<char>)
    requires
        is_number_text(a),
        is_number_text(b),
    ensures
        tokenize_spec(a + seq!['('] + b + seq![')']) == seq![
            SpecTok::Number(a),
            SpecTok::LParen,
            SpecTok::Number(b),
            SpecTok::RParen,
            SpecTok::Eof,
        ],
{
    let q3 = seq![')'];
    let q1 = seq!['('] + (b + q3);
    assert(a + seq!['('] + b + seq![')'] =~= a + q1);
    assert(q1[0] == '(');
    lemma_lex_number_then(a, q1);
    lemma_lex_operator_then('(', b + q3);
    assert(q3[0] == ')');
    lemma_lex_number_then(b, q3);
    lemma_lex_operator_then(')', Seq::empty());
    assert(q3 =~= seq![')'] + Seq::<char>::empty());
    assert(lex(Seq::<char>::empty()) =~= Seq::<SpecTok>::empty());
    assert(lex(a + q1).push(SpecTok::Eof) =~= seq![
        SpecTok::Number(a),
        SpecTok::LParen,
        SpecTok::Number(b),
        SpecTok::RParen,
        SpecTok::Eof,
    ]);
}

/// An implicit product takes the whole power that follows it: a number
/// written before a bracketed number raised to a power, `a(b)^c`, reads as
/// `a * (b^c)`.
pub proof fn lemma_parse_implicit_power(a: Seq<char>, b: Seq<char>, c: Seq<char>)
    requires
        is_number_text(a),
        is_number_text(b),
        is_number_text(c),
    ensures
        parse_spec(a + seq!['('] + b + seq![')', '^'] + c) == SpecExpr::Mul(
            Box::new(SpecExpr::Num(a)),
            Box::new(SpecExpr::Pow(Box::new(SpecExpr::Num(b)), Box::new(SpecExpr::Num(c)))),
        ),
{
    lemma_tokens_of_bracket_power(a, b, c);
    let t = tokenize_spec(a + seq!['('] + b + seq![')', '^'] + c);
    let na = SpecExpr::Num(a);
    let nb = SpecExpr::Num(b);
    let nc = SpecExpr::Num(c);
    let bc = SpecExpr::Pow(Box::new(nb), Box::new(nc));
    let e = SpecExpr::Mul(Box::new(na), Box::new(bc));
    assert(tok_at(t, 0) == SpecTok::Number(a));
    assert(tok_at(t, 1) == SpecTok::LParen);
    assert(tok_at(t, 2) == SpecTok::Number(b));
    assert(tok_at(t, 3) == SpecTok::RParen);
    assert(tok_at(t, 4) == SpecTok::Pow);
    assert(tok_at(t, 5) == SpecTok::Number(c));
    assert(tok_at(t, 6) == SpecTok::Eof);
    assert(implicit_product_spec(t, 3, nb) == (nb, 0nat));
    assert(parse_factor_spec(t, 2) == (nb, 1nat));
    assert(parse_power_spec(t, 2) == (nb, 1nat));
    assert(parse_term_tail_spec(t, 3, nb) == (nb, 0nat));
    assert(parse_term_spec(t, 2) == (nb, 1nat));
    assert(parse_expr_tail_spec(t, 3, nb) == (nb, 0nat));
    assert(parse_expr_spec(t, 2) == (nb, 1nat));
    assert(implicit_product_spec(t, 4, nb) == (nb, 0nat));
    assert(parse_factor_spec(t, 1) == (nb, 3nat));
    assert(implicit_product_spec(t, 6, nc) == (nc, 0nat));
    assert(parse_factor_spec(t, 5) == (nc, 1nat));
    assert(parse_power_spec(t, 5) == (nc, 1nat));
    assert(parse_power_spec(t, 1) == (bc, 5nat));
    assert(implicit_product_spec(t, 1, na) == (e, 5nat));
    assert(parse_factor_spec(t, 0) == (e, 6nat));
    assert(parse_power_spec(t, 0) == (e, 6nat));
    assert(parse_term_tail_spec(t, 6, e) == (e, 0nat));
    assert(parse_term_spec(t, 0) == (e, 6nat));
    assert(parse_expr_tail_spec(t, 6, e) == (e, 0nat));
}

/// A number written before a bracketed number, `a(b)`, reads as `a * b`.
pub proof fn lemma_parse_bracket_product(a: Seq<char>, b: Seq<char>)
    requires
        is_number_text(a),
        is_number_text(b),
    ensures
        parse_spec(a + seq!['('] + b + seq![')']) == SpecExpr::Mul(
            Box::new(SpecExpr::Num(a)),
            Box::new(SpecExpr::Num(b)),
        ),
{
    lemma_tokens_of_bracket(a, b);
    let u = tokenize_spec(a + seq!['('] + b + seq![')']);
    let na = SpecExpr::Num(a);
    let nb = SpecExpr::Num(b);
    let f = SpecExpr::Mul(Box::new(na), Box::new(nb));
    assert(tok_at(u, 0) == SpecTok::Number(a));
    assert(tok_at(u, 1) == SpecTok::LParen);
    assert(tok_at(u, 2) == SpecTok::Number(b));
    assert(tok_at(u, 3) == SpecTok::RParen);
    assert(tok_at(u, 4) == SpecTok::Eof);
    assert(implicit_product_spec(u, 3, nb) == (nb, 0nat));
    assert(parse_factor_spec(u, 2) == (nb, 1nat));
    assert(parse_power_spec(u, 2) == (nb, 1nat));
    assert(parse_term_tail_spec(u, 3, nb) == (nb, 0nat));
    assert(parse_term_spec(u, 2) == (nb, 1nat));
    assert(parse_expr_tail_spec(u, 3, nb) == (nb, 0nat));
    assert(parse_expr_spec(u, 2) == (nb, 1nat));
    assert(implicit_product_spec(u, 4, nb) == (nb, 0nat));
    assert(parse_factor_spec(u, 1) == (nb, 3nat));
    assert(parse_power_spec(u, 1) == (nb, 3nat));
    assert(implicit_product_spec(u, 1, na) == (f, 3nat));
    assert(parse_factor_spec(u, 0) == (f, 4nat));
    assert(parse_power_spec(u, 0) == (f, 4nat));
    assert(parse_term_tail_spec(u, 4, f) == (f, 0nat));
    assert(parse_term_spec(u, 0) == (f, 4nat));
    assert(parse_expr_tail_spec(u, 4, f) == (f, 0nat));
}

/// A number token holds a run of digits and points; a variable token holds
/// a non-empty run of alphabetic characters.
pub open spec fn token_text_fits(t: SpecTok) -> bool {
    match t {
        SpecTok::Number(x) => is_number_text(x),
        SpecTok::Variable(x) => x.len() > 0 && forall|i: int|
            0 <= i < x.len() ==> is_alphabetic(#[trigger] x[i]),
        _ => true,
    }
}

proof fn lemma_lex_token_kinds(s: Seq<char>)
    ensures
        forall|i: int| 0 <= i < lex(s).len() ==> token_text_fits(#[trigger] lex(s)[i]),
    decreases s.len(),
{
    if s.len() > 0 {
        let c = s[0];
        let rest = s.drop_first();
        if is_blank(c) {
            lemma_lex_token_kinds(rest);
        } else if let Some(op) = operator_spec(c) {
            lemma_lex_token_kinds(rest);
            assert forall|i: int| 0 <= i < lex(s).len() implies token_text_fits(#[trigger] lex(s)[i]) by {
                if i > 0 {
                    assert(lex(s)[i] == lex(rest)[i - 1]);
                }
            }
        } else if is_number_char(c) {
            lemma_number_run_bound(s);
            lemma_number_run_chars(s);
            let n = number_run(s);
            lemma_lex_token_kinds(s.skip(n as int));
            let x = s.take(n as int);
            assert forall|i: int| 0 <= i < x.len() implies (('0' <= #[trigger] x[i] && x[i] <= '9')
                || x[i] == '.') by {
                assert(x[i] == s[i]);
            }
            assert(x.len() > 0);
            assert forall|i: int| 0 <= i < lex(s).len() implies token_text_fits(#[trigger] lex(s)[i]) by {
                if i > 0 {
                    assert(lex(s)[i] == lex(s.skip(n as int))[i - 1]);
                }
            }
        } else if is_alphabetic(c) {
            lemma_alpha_run_bound(s);
            lemma_alpha_run_chars(s);
            let n = alpha_run(s);
            lemma_lex_token_kinds(s.skip(n as int));
            let x = s.take(n as int);
            assert forall|i: int| 0 <= i < x.len() implies is_alphabetic(#[trigger] x[i]) by {
                assert(x[i] == s[i]);
            }
            assert(x.len() > 0);
            assert forall|i: int| 0 <= i < lex(s).len() implies token_text_fits(#[trigger] lex(s)[i]) by {
                if i > 0 {
                    assert(lex(s)[i] == lex(s.skip(n as int))[i - 1]);
                }
            }
        } else {
            lemma_lex_token_kinds(rest);
        }
    }
}

/// Every number token holds only digits and points, at least one, and
/// every variable token holds only alphabetic characters, at least one.
pub proof fn lemma_tokenize_token_kinds(s: Seq<char>)
    ensures
        forall|i: int|
            0 <= i < tokenize_spec(s).len() ==> token_text_fits(#[trigger] tokenize_spec(s)[i]),
{
    lemma_lex_token_kinds(s);
    let t = tokenize_spec(s);
    assert forall|i: int| 0 <= i < t.len() implies token_text_fits(#[trigger] t[i]) by {
        if i < lex(s).len() {
            assert(t[i] == lex(s)[i]);
        }
    }
}

} // verus!
