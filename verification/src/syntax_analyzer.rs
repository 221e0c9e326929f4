//! The abstract syntax tree and the recursive-descent parser that builds it
//! from a token list.

use vstd::prelude::*;

use crate::lex_layer::{LiteralType, LiteralTypeView, Token, TokenView};
use crate::text::{char_to_string, str_eq, three_part};

verus! {

/// A parsed function: a name, a parameter list, and a body of statements.
#[derive(Debug)]
pub struct Function {
    pub name: String,
    pub params: Vec<String>,
    pub body: Vec<Statement>,
}

/// One statement of a function body.
#[derive(Debug)]
pub enum Statement {
    VarDecl { name: String, value: Expression },
    Expr(Expression),
    Return(Expression),
}

/// An expression: a literal, an identifier, or a binary operation.
#[derive(Debug)]
pub enum Expression {
    Integer(i64),
    Boolean(bool),
    String(String),
    Ident(String),
    BinaryOp { left: Box<Expression>, op: String, right: Box<Expression> },
}

/// The mathematical image of an `Expression`.
pub enum ExpressionView {
    Integer(i64),
    Boolean(bool),
    String(Seq<char>),
    Ident(Seq<char>),
    BinaryOp { left: Box<ExpressionView>, op: Seq<char>, right: Box<ExpressionView> },
}

/// The mathematical image of a `Statement`.
pub enum StatementView {
    VarDecl { name: Seq<char>, value: ExpressionView },
    Expr(ExpressionView),
    Return(ExpressionView),
}

/// The mathematical image of a `Function`.
pub struct FunctionView {
    pub name: Seq<char>,
    pub params: Seq<Seq<char>>,
    pub body: Seq<StatementView>,
}

pub open spec fn expr_view(e: Expression) -> ExpressionView
    decreases e,
{
    match e {
        Expression::Integer(n) => ExpressionView::Integer(n),
        Expression::Boolean(b) => ExpressionView::Boolean(b),
        Expression::String(s) => ExpressionView::String(s@),
        Expression::Ident(x) => ExpressionView::Ident(x@),
        Expression::BinaryOp { left, op, right } => ExpressionView::BinaryOp {
            left: Box::new(expr_view(*left)),
            op: op@,
            right: Box::new(expr_view(*right)),
        },
    }
}

impl DeepView for Expression {
    type V = ExpressionView;

    open spec fn deep_view(&self) -> ExpressionView {
        expr_view(*self)
    }
}

impl DeepView for Statement {
    type V = StatementView;

    open spec fn deep_view(&self) -> StatementView {
        match self {
            Statement::VarDecl { name, value } => StatementView::VarDecl {
                name: name@,
                value: value.deep_view(),
            },
            Statement::Expr(e) => StatementView::Expr(e.deep_view()),
            Statement::Return(e) => StatementView::Return(e.deep_view()),
        }
    }
}

impl DeepView for Function {
    type V = FunctionView;

    open spec fn deep_view(&self) -> FunctionView {
        FunctionView {
            name: self.name@,
            params: self.params.deep_view(),
            body: self.body.deep_view(),
        }
    }
}

/// The views of a token list.
pub open spec fn toks_view(s: Seq<Token>) -> Seq<TokenView> {
    Seq::new(s.len(), |i: int| s[i].deep_view())
}

/// A token the parser skips: whitespace or a comment.
pub open spec fn is_ws_tok(t: TokenView) -> bool {
    t is Whitespace || t is Comment
}

/// The first position at or after `i` holding a token the parser reads.
pub open spec fn skip_ws(t: Seq<TokenView>, i: int) -> int
    decreases t.len() - i,
{
    if 0 <= i < t.len() && is_ws_tok(t[i]) {
        skip_ws(t, i + 1)
    } else {
        i
    }
}

/// An index clamped into a range, for well-founded recursion; the parser's
/// positions always land inside the range anyway.
pub open spec fn pclamp(j: int, lo: int, hi: int) -> int {
    if j < lo {
        lo
    } else if j > hi {
        hi
    } else {
        j
    }
}

/// `skip_ws`, clamped into the text.
pub open spec fn ws_at(t: Seq<TokenView>, i: int) -> int {
    pclamp(skip_ws(t, i), i, t.len() as int)
}

proof fn lemma_skip_ws_bounds(t: Seq<TokenView>, i: int)
    requires
        0 <= i <= t.len(),
    ensures
        i <= skip_ws(t, i) <= t.len(),
        ws_at(t, i) == skip_ws(t, i),
    decreases t.len() - i,
{
    if i < t.len() && is_ws_tok(t[i]) {
        lemma_skip_ws_bounds(t, i + 1);
    }
}

pub open spec fn msg_expected_keyword(kw: Seq<char>) -> Seq<char> {
    "Expected keyword '"@ + kw + "'"@
}

pub open spec fn msg_expected_operator(op: Seq<char>) -> Seq<char> {
    "Expected operator '"@ + op + "'"@
}

pub open spec fn msg_expected_delim(ch: char) -> Seq<char> {
    "Expected delimiter '"@ + seq![ch] + "'"@
}

pub open spec fn msg_expected_delim_eoi(ch: char) -> Seq<char> {
    "Expected delimiter '"@ + seq![ch] + "', found end of input"@
}

pub open spec fn msg_expected_function_name() -> Seq<char> {
    "Expected function name"@
}

pub open spec fn msg_expected_var_name() -> Seq<char> {
    "Expected identifier after 'var'"@
}

pub open spec fn msg_unexpected_in_params() -> Seq<char> {
    "Unexpected token in parameters"@
}

pub open spec fn msg_unexpected_in_expression() -> Seq<char> {
    "Unexpected token in expression"@
}

/// Parse one primary expression from position `i`: a literal, an
/// identifier, or a parenthesized expression.
pub open spec fn spec_parse_primary(t: Seq<TokenView>, i: int) -> (
    Result<ExpressionView, Seq<char>>,
    int,
)
    decreases t.len() - i, 0int,
{
    let a = ws_at(t, i);
    if a >= t.len() {
        (Err(msg_unexpected_in_expression()), a)
    } else {
        match t[a] {
            TokenView::Literal(LiteralTypeView::Integer(n)) => (
                Ok(ExpressionView::Integer(n)),
                a + 1,
            ),
            TokenView::Literal(LiteralTypeView::Boolean(b)) => (
                Ok(ExpressionView::Boolean(b)),
                a + 1,
            ),
            TokenView::Literal(LiteralTypeView::String(st)) => (
                Ok(ExpressionView::String(st)),
                a + 1,
            ),
            TokenView::Identifier(x) => (Ok(ExpressionView::Ident(x)), a + 1),
            TokenView::Delimiter(c) => if c == '(' {
                let (inner, q0) = spec_parse_expression(t, a + 1);
                match inner {
                    Err(m) => (Err(m), q0),
                    Ok(e) => {
                        let q = pclamp(q0, a + 2, t.len() as int);
                        let d = ws_at(t, q);
                        if d < t.len() && t[d] == TokenView::Delimiter(')') {
                            (Ok(e), d + 1)
                        } else if d < t.len() {
                            (Err(msg_expected_delim(')')), d)
                        } else {
                            (Err(msg_expected_delim_eoi(')')), d)
                        }
                    },
                }
            } else {
                (Err(msg_unexpected_in_expression()), a + 1)
            },
            _ => (Err(msg_unexpected_in_expression()), a + 1),
        }
    }
}

/// Parse one expression from position `i`: a primary, optionally continued
/// by one binary operator whose right side is parsed by the same rule —
/// operators therefore group to the right.
pub open spec fn spec_parse_expression(t: Seq<TokenView>, i: int) -> (
    Result<ExpressionView, Seq<char>>,
    int,
)
    decreases t.len() - i, 1int,
{
    let (prim, np) = spec_parse_primary(t, i);
    match prim {
        Err(m) => (Err(m), np),
        Ok(left) => {
            let p = pclamp(np, ws_at(t, i) + 1, t.len() as int);
            let o = ws_at(t, p);
            if o < t.len() && t[o] is Operator {
                let op = t[o]->Operator_0;
                let (rhs, r) = spec_parse_expression(t, o + 1);
                match rhs {
                    Err(m) => (Err(m), r),
                    Ok(re) => (
                        Ok(
                            ExpressionView::BinaryOp {
                                left: Box::new(left),
                                op: op,
                                right: Box::new(re),
                            },
                        ),
                        r,
                    ),
                }
            } else {
                (Ok(left), p)
            }
        },
    }
}

/// Parse a `var` declaration from the position of its keyword.
pub open spec fn spec_parse_var_decl(t: Seq<TokenView>, i: int) -> (
    Result<StatementView, Seq<char>>,
    int,
) {
    let a = ws_at(t, i);
    if !(a < t.len() && t[a] == TokenView::Keyword("var"@)) {
        (Err(msg_expected_keyword("var"@)), pclamp(a + 1, i, t.len() as int))
    } else {
        let b = ws_at(t, a + 1);
        if !(b < t.len() && t[b] is Identifier) {
            (Err(msg_expected_var_name()), pclamp(b + 1, a + 1, t.len() as int))
        } else {
            let name = t[b]->Identifier_0;
            let c = ws_at(t, b + 1);
            if !(c < t.len() && t[c] == TokenView::Operator("="@)) {
                (Err(msg_expected_operator("="@)), pclamp(c + 1, b + 1, t.len() as int))
            } else {
                let (v, j0) = spec_parse_expression(t, c + 1);
                match v {
                    Err(m) => (Err(m), j0),
                    Ok(e) => {
                        let j = pclamp(j0, c + 2, t.len() as int);
                        let d = ws_at(t, j);
                        if d < t.len() && t[d] == TokenView::Delimiter(';') {
                            (Ok(StatementView::VarDecl { name: name, value: e }), d + 1)
                        } else if d < t.len() {
                            (Err(msg_expected_delim(';')), d)
                        } else {
                            (Err(msg_expected_delim_eoi(';')), d)
                        }
                    },
                }
            }
        }
    }
}

/// Parse a `return` statement from the position of its keyword.
pub open spec fn spec_parse_return(t: Seq<TokenView>, i: int) -> (
    Result<StatementView, Seq<char>>,
    int,
) {
    let a = ws_at(t, i);
    if !(a < t.len() && t[a] == TokenView::Keyword("return"@)) {
        (Err(msg_expected_keyword("return"@)), pclamp(a + 1, i, t.len() as int))
    } else {
        let (v, j0) = spec_parse_expression(t, a + 1);
        match v {
            Err(m) => (Err(m), j0),
            Ok(e) => {
                let j = pclamp(j0, a + 2, t.len() as int);
                let d = ws_at(t, j);
                if d < t.len() && t[d] == TokenView::Delimiter(';') {
                    (Ok(StatementView::Return(e)), d + 1)
                } else if d < t.len() {
                    (Err(msg_expected_delim(';')), d)
                } else {
                    (Err(msg_expected_delim_eoi(';')), d)
                }
            },
        }
    }
}

/// Parse one expression statement: an expression then `;`.
pub open spec fn spec_parse_expr_statement(t: Seq<TokenView>, i: int) -> (
    Result<StatementView, Seq<char>>,
    int,
) {
    let (e, j1) = spec_parse_expression(t, i);
    match e {
        Err(m) => (Err(m), j1),
        Ok(ex) => {
            let j = pclamp(j1, i + 1, t.len() as int);
            let d = ws_at(t, j);
            if d < t.len() && t[d] == TokenView::Delimiter(';') {
                (Ok(StatementView::Expr(ex)), d + 1)
            } else if d < t.len() {
                (Err(msg_expected_delim(';')), d)
            } else {
                (Err(msg_expected_delim_eoi(';')), d)
            }
        },
    }
}

/// Parse statements until a closing brace or the end of the tokens.
pub open spec fn spec_parse_statements(t: Seq<TokenView>, i: int) -> (
    Result<Seq<StatementView>, Seq<char>>,
    int,
)
    decreases t.len() - i,
{
    let p = ws_at(t, i);
    if p >= t.len() {
        (Ok(Seq::empty()), i)
    } else if t[p] == TokenView::Delimiter('}') {
        (Ok(Seq::empty()), i)
    } else {
        let (st, j0) = if t[p] == TokenView::Keyword("var"@) {
            spec_parse_var_decl(t, i)
        } else if t[p] == TokenView::Keyword("return"@) {
            spec_parse_return(t, i)
        } else {
            spec_parse_expr_statement(t, i)
        };
        match st {
            Err(m) => (Err(m), j0),
            Ok(s1) => {
                let j = pclamp(j0, p + 1, t.len() as int);
                let (rest, k) = spec_parse_statements(t, j);
                match rest {
                    Err(m) => (Err(m), k),
                    Ok(ss) => (Ok(seq![s1] + ss), k),
                }
            },
        }
    }
}

/// Parse the parameter list after the opening parenthesis.
pub open spec fn spec_parse_params(t: Seq<TokenView>, i: int) -> (
    Result<Seq<Seq<char>>, Seq<char>>,
    int,
)
    decreases t.len() - i,
{
    let p = ws_at(t, i);
    if p >= t.len() {
        (Err(msg_unexpected_in_params()), i)
    } else {
        match t[p] {
            TokenView::Identifier(x) => {
                let q = ws_at(t, p + 1);
                let next = if q < t.len() && t[q] == TokenView::Delimiter(',') {
                    pclamp(q + 1, p + 1, t.len() as int)
                } else {
                    pclamp(p + 1, p + 1, t.len() as int)
                };
                let (rest, k) = spec_parse_params(t, next);
                match rest {
                    Err(m) => (Err(m), k),
                    Ok(ps) => (Ok(seq![x] + ps), k),
                }
            },
            TokenView::Delimiter(')') => (Ok(Seq::empty()), p + 1),
            _ => (Err(msg_unexpected_in_params()), i),
        }
    }
}

/// Parse one function: keyword, name, parameter list, braced body.
pub open spec fn spec_parse_function(t: Seq<TokenView>, i: int) -> (
    Result<FunctionView, Seq<char>>,
    int,
) {
    let a = ws_at(t, i);
    if !(a < t.len() && t[a] == TokenView::Keyword("func"@)) {
        (Err(msg_expected_keyword("func"@)), pclamp(a + 1, i, t.len() as int))
    } else {
        let b = ws_at(t, a + 1);
        if !(b < t.len() && t[b] is Identifier) {
            (Err(msg_expected_function_name()), pclamp(b + 1, a + 1, t.len() as int))
        } else {
            let name = t[b]->Identifier_0;
            let c = ws_at(t, b + 1);
            if !(c < t.len() && t[c] == TokenView::Delimiter('(')) {
                if c < t.len() {
                    (Err(msg_expected_delim('(')), c)
                } else {
                    (Err(msg_expected_delim_eoi('(')), c)
                }
            } else {
                let (params, j0) = spec_parse_params(t, c + 1);
                match params {
                    Err(m) => (Err(m), j0),
                    Ok(ps) => {
                        let j = pclamp(j0, c + 1, t.len() as int);
                        let d = ws_at(t, j);
                        if !(d < t.len() && t[d] == TokenView::Delimiter('{')) {
                            if d < t.len() {
                                (Err(msg_expected_delim('{')), d)
                            } else {
                                (Err(msg_expected_delim_eoi('{')), d)
                            }
                        } else {
                            let (body, k0) = spec_parse_statements(t, d + 1);
                            match body {
                                Err(m) => (Err(m), k0),
                                Ok(bs) => {
                                    let k = pclamp(k0, d + 1, t.len() as int);
                                    let e = ws_at(t, k);
                                    if e < t.len() && t[e] == TokenView::Delimiter('}') {
                                        (
                                            Ok(
                                                FunctionView {
                                                    name: name,
                                                    params: ps,
                                                    body: bs,
                                                },
                                            ),
                                            e + 1,
                                        )
                                    } else if e < t.len() {
                                        (Err(msg_expected_delim('}')), e)
                                    } else {
                                        (Err(msg_expected_delim_eoi('}')), e)
                                    }
                                },
                            }
                        }
                    },
                }
            }
        }
    }
}

/// The recursive-descent parser: a borrowed token list and a cursor.
pub struct Parser<'a> {
    tokens: &'a [Token],
    current: usize,
}

impl<'a> Parser<'a> {
    /// The token views the parser walks.
    pub closed spec fn toks(&self) -> Seq<TokenView> {
        toks_view(self.tokens@)
    }

    /// The cursor.
    pub closed spec fn pos(&self) -> int {
        self.current as int
    }

    /// The cursor never leaves the token list.
    pub closed spec fn wf(&self) -> bool {
        self.current <= self.tokens@.len()
    }

    pub fn new(tokens: &'a [Token]) -> (r: Self)
        ensures
            r.wf(),
            r.toks() == toks_view(tokens@),
            r.pos() == 0,
    {
        Parser { tokens, current: 0 }
    }

    /// The token under the cursor, without moving it.
    fn peek_raw(&self) -> (r: Option<&'a Token>)
        requires
            self.wf(),
        ensures
            match r {
                Some(tok) => self.pos() < self.toks().len() && tok.deep_view()
                    == self.toks()[self.pos()],
                None => self.pos() == self.toks().len(),
            },
    {
        let toks = self.tokens;
        if self.current < toks.len() {
            Some(&toks[self.current])
        } else {
            None
        }
    }

    /// The token under the cursor, moving past it.
    fn advance_raw(&mut self) -> (r: Option<&'a Token>)
        requires
            old(self).wf(),
        ensures
            final(self).wf(),
            final(self).toks() == old(self).toks(),
            match r {
                Some(tok) => old(self).pos() < old(self).toks().len() && tok.deep_view() == old(
                    self,
                ).toks()[old(self).pos()] && final(self).pos() == old(self).pos() + 1,
                None => old(self).pos() == old(self).toks().len() && final(self).pos() == old(
                    self,
                ).pos(),
            },
    {
        let toks = self.tokens;
        if self.current < toks.len() {
            let tok = &toks[self.current];
            self.current = self.current + 1;
            Some(tok)
        } else {
            None
        }
    }

    /// The next token the parser reads, skipping whitespace and comments,
    /// moving the cursor past it.
    fn advance(&mut self) -> (r: Option<&'a Token>)
        requires
            old(self).wf(),
        ensures
            final(self).wf(),
            final(self).toks() == old(self).toks(),
            ({
                let a = ws_at(old(self).toks(), old(self).pos());
                match r {
                    Some(tok) => a < old(self).toks().len() && tok.deep_view() == old(self).toks()[a]
                        && final(self).pos() == a + 1,
                    None => a == old(self).toks().len() && final(self).pos() == a,
                }
            }),
    {
        let ghost t = self.toks();
        let ghost p0 = self.pos();
        proof {
            lemma_skip_ws_bounds(t, p0);
        }
        let toks = self.tokens;
        let n = toks.len();
        while self.current < n
            invariant
                p0 <= self.current as int <= n,
                n == self.tokens@.len(),
                self.tokens == old(self).tokens,
                toks == self.tokens,
                t == self.toks(),
                p0 == old(self).pos(),
                skip_ws(t, p0) == skip_ws(t, self.current as int),
            decreases n - self.current,
        {
            let tok = &toks[self.current];
            proof {
                assert(tok.deep_view() == t[self.current as int]);
            }
            if matches!(tok, Token::Whitespace | Token::Comment) {
                self.current = self.current + 1;
            } else {
                proof {
                    assert(skip_ws(t, self.current as int) == self.current as int);
                    lemma_skip_ws_bounds(t, p0);
                }
                self.current = self.current + 1;
                return Some(tok);
            }
        }
        proof {
            assert(skip_ws(t, n as int) == n as int);
            lemma_skip_ws_bounds(t, p0);
        }
        None
    }

    /// The next token the parser would read, without moving the cursor.
    fn peek(&self) -> (r: Option<&'a Token>)
        requires
            self.wf(),
        ensures
            ({
                let a = ws_at(self.toks(), self.pos());
                match r {
                    Some(tok) => a < self.toks().len() && tok.deep_view() == self.toks()[a],
                    None => a == self.toks().len(),
                }
            }),
    {
        let ghost t = self.toks();
        let ghost p0 = self.pos();
        proof {
            lemma_skip_ws_bounds(t, p0);
        }
        let toks = self.tokens;
        let n = toks.len();
        let mut j = self.current;
        while j < n
            invariant
                p0 <= j as int <= n,
                n == self.tokens@.len(),
                toks == self.tokens,
                t == self.toks(),
                p0 == self.pos(),
                skip_ws(t, p0) == skip_ws(t, j as int),
            decreases n - j,
        {
            let tok = &toks[j];
            proof {
                assert(tok.deep_view() == t[j as int]);
            }
            if matches!(tok, Token::Whitespace | Token::Comment) {
                j = j + 1;
            } else {
                proof {
                    assert(skip_ws(t, j as int) == j as int);
                    lemma_skip_ws_bounds(t, p0);
                }
                return Some(tok);
            }
        }
        proof {
            assert(skip_ws(t, n as int) == n as int);
            lemma_skip_ws_bounds(t, p0);
        }
        None
    }

    /// Consume the next read token, which must be the given keyword.
    fn expect_keyword(&mut self, kw: &str) -> (r: Result<(), String>)
        requires
            old(self).wf(),
        ensures
            final(self).wf(),
            final(self).toks() == old(self).toks(),
            ({
                let t = old(self).toks();
                let a = ws_at(t, old(self).pos());
                if a < t.len() && t[a] == TokenView::Keyword(kw@) {
                    r is Ok && final(self).pos() == a + 1
                } else {
                    (r matches Err(m) && m@ == msg_expected_keyword(kw@)) && final(self).pos()
                        == pclamp(a + 1, old(self).pos(), t.len() as int)
                }
            }),
    {
        proof {
            lemma_skip_ws_bounds(old(self).toks(), old(self).pos());
        }
        let good = match self.advance() {
            Some(tok) => match tok {
                Token::Keyword(s) => str_eq(s.as_str(), kw),
                _ => false,
            },
            None => false,
        };
        if good {
            Ok(())
        } else {
            proof {
                reveal_strlit("Expected keyword '");
                reveal_strlit("'");
            }
            Err(three_part("Expected keyword '", kw, "'"))
        }
    }

    /// Consume the next read token, which must be the given operator.
    fn expect_operator(&mut self, op: &str) -> (r: Result<(), String>)
        requires
            old(self).wf(),
        ensures
            final(self).wf(),
            final(self).toks() == old(self).toks(),
            ({
                let t = old(self).toks();
                let a = ws_at(t, old(self).pos());
                if a < t.len() && t[a] == TokenView::Operator(op@) {
                    r is Ok && final(self).pos() == a + 1
                } else {
                    (r matches Err(m) && m@ == msg_expected_operator(op@)) && final(self).pos()
                        == pclamp(a + 1, old(self).pos(), t.len() as int)
                }
            }),
    {
        proof {
            lemma_skip_ws_bounds(old(self).toks(), old(self).pos());
        }
        let good = match self.advance() {
            Some(tok) => match tok {
                Token::Operator(s) => str_eq(s.as_str(), op),
                _ => false,
            },
            None => false,
        };
        if good {
            Ok(())
        } else {
            proof {
                reveal_strlit("Expected operator '");
                reveal_strlit("'");
            }
            Err(three_part("Expected operator '", op, "'"))
        }
    }

    /// Consume the given delimiter, skipping whitespace before it; on a
    /// mismatch the cursor stays on the offending token.
    fn expect_delim(&mut self, ch: char) -> (r: Result<(), String>)
        requires
            old(self).wf(),
        ensures
            final(self).wf(),
            final(self).toks() == old(self).toks(),
            ({
                let t = old(self).toks();
                let d = ws_at(t, old(self).pos());
                if d < t.len() && t[d] == TokenView::Delimiter(ch) {
                    r is Ok && final(self).pos() == d + 1
                } else if d < t.len() {
                    (r matches Err(m) && m@ == msg_expected_delim(ch)) && final(self).pos() == d
                } else {
                    (r matches Err(m) && m@ == msg_expected_delim_eoi(ch)) && final(self).pos()
                        == d
                }
            }),
    {
        let ghost t = self.toks();
        let ghost p0 = self.pos();
        proof {
            lemma_skip_ws_bounds(t, p0);
        }
        let toks = self.tokens;
        let n = toks.len();
        while self.current < n
            invariant
                p0 <= self.current as int <= n,
                n == self.tokens@.len(),
                self.tokens == old(self).tokens,
                toks == self.tokens,
                t == self.toks(),
                p0 == old(self).pos(),
                skip_ws(t, p0) == skip_ws(t, self.current as int),
            decreases n - self.current,
        {
            let tok = &toks[self.current];
            proof {
                assert(tok.deep_view() == t[self.current as int]);
            }
            match tok {
                Token::Whitespace | Token::Comment => {
                    self.current = self.current + 1;
                },
                Token::Delimiter(c2) => {
                    proof {
                        assert(skip_ws(t, self.current as int) == self.current as int);
                        lemma_skip_ws_bounds(t, p0);
                    }
                    if *c2 == ch {
                        self.current = self.current + 1;
                        return Ok(());
                    } else {
                        proof {
                            reveal_strlit("Expected delimiter '");
                            reveal_strlit("'");
                        }
                        let cstr = char_to_string(ch);
                        return Err(three_part("Expected delimiter '", cstr.as_str(), "'"));
                    }
                },
                _ => {
                    proof {
                        assert(skip_ws(t, self.current as int) == self.current as int);
                        lemma_skip_ws_bounds(t, p0);
                        reveal_strlit("Expected delimiter '");
                        reveal_strlit("'");
                    }
                    let cstr = char_to_string(ch);
                    return Err(three_part("Expected delimiter '", cstr.as_str(), "'"));
                },
            }
        }
        proof {
            assert(skip_ws(t, n as int) == n as int);
            lemma_skip_ws_bounds(t, p0);
            reveal_strlit("Expected delimiter '");
            reveal_strlit("', found end of input");
        }
        let cstr = char_to_string(ch);
        Err(three_part("Expected delimiter '", cstr.as_str(), "', found end of input"))
    }

    /// `expect_delim`, kept under its older name as well.
    fn expect_delim_raw(&mut self, ch: char) -> (r: Result<(), String>)
        requires
            old(self).wf(),
        ensures
            final(self).wf(),
            final(self).toks() == old(self).toks(),
            ({
                let t = old(self).toks();
                let d = ws_at(t, old(self).pos());
                if d < t.len() && t[d] == TokenView::Delimiter(ch) {
                    r is Ok && final(self).pos() == d + 1
                } else if d < t.len() {
                    (r matches Err(m) && m@ == msg_expected_delim(ch)) && final(self).pos() == d
                } else {
                    (r matches Err(m) && m@ == msg_expected_delim_eoi(ch)) && final(self).pos()
                        == d
                }
            }),
    {
        self.expect_delim(ch)
    }
}

impl<'a> Parser<'a> {
    /// Parse a primary expression: a literal, an identifier, or a
    /// parenthesized expression.
    fn parse_primary(&mut self) -> (r: Result<Expression, String>)
        requires
            old(self).wf(),
        ensures
            final(self).wf(),
            final(self).toks() == old(self).toks(),
            final(self).pos() == spec_parse_primary(old(self).toks(), old(self).pos()).1,
            old(self).pos() <= final(self).pos(),
            r is Ok ==> final(self).pos() > ws_at(old(self).toks(), old(self).pos()),
            match r {
                Ok(e) => spec_parse_primary(old(self).toks(), old(self).pos()).0 == Ok::<
                    ExpressionView,
                    Seq<char>,
                >(e.deep_view()),
                Err(m) => spec_parse_primary(old(self).toks(), old(self).pos()).0 == Err::<
                    ExpressionView,
                    Seq<char>,
                >(m@),
            },
        decreases self.toks().len() - self.pos(), 0int,
    {
        let ghost t = self.toks();
        let ghost i0 = self.pos();
        proof {
            lemma_skip_ws_bounds(t, i0);
        }
        let ghost a = ws_at(t, i0);
        let first = self.advance();
        match first {
            None => {
                proof {
                    reveal_strlit("Unexpected token in expression");
                }
                Err(String::from_str("Unexpected token in expression"))
            },
            Some(tok) => match tok {
                Token::Literal(LiteralType::Integer(v)) => Ok(Expression::Integer(*v)),
                Token::Literal(LiteralType::Boolean(b)) => Ok(Expression::Boolean(*b)),
                Token::Literal(LiteralType::String(st)) => Ok(Expression::String(st.clone())),
                Token::Identifier(x) => Ok(Expression::Ident(x.clone())),
                Token::Delimiter(c) => {
                    if *c == '(' {
                        let inner = match self.parse_expression() {
                            Ok(e) => e,
                            Err(m) => {
                                return Err(m);
                            },
                        };
                        proof {
                            assert(pclamp(self.pos(), a + 2, t.len() as int) == self.pos());
                            lemma_skip_ws_bounds(t, self.pos());
                        }
                        match self.expect_delim(')') {
                            Ok(u) => Ok(inner),
                            Err(m) => Err(m),
                        }
                    } else {
                        proof {
                            reveal_strlit("Unexpected token in expression");
                        }
                        Err(String::from_str("Unexpected token in expression"))
                    }
                },
                _ => {
                    proof {
                        reveal_strlit("Unexpected token in expression");
                    }
                    Err(String::from_str("Unexpected token in expression"))
                },
            },
        }
    }

    /// Parse an expression: a primary, optionally continued by one binary
    /// operator whose right side is parsed by the same rule.
    fn parse_expression(&mut self) -> (r: Result<Expression, String>)
        requires
            old(self).wf(),
        ensures
            final(self).wf(),
            final(self).toks() == old(self).toks(),
            final(self).pos() == spec_parse_expression(old(self).toks(), old(self).pos()).1,
            old(self).pos() <= final(self).pos(),
            r is Ok ==> final(self).pos() >= ws_at(old(self).toks(), old(self).pos()) + 1,
            match r {
                Ok(e) => spec_parse_expression(old(self).toks(), old(self).pos()).0 == Ok::<
                    ExpressionView,
                    Seq<char>,
                >(e.deep_view()),
                Err(m) => spec_parse_expression(old(self).toks(), old(self).pos()).0 == Err::<
                    ExpressionView,
                    Seq<char>,
                >(m@),
            },
        decreases self.toks().len() - self.pos(), 1int,
    {
        let ghost t = self.toks();
        let ghost i0 = self.pos();
        proof {
            lemma_skip_ws_bounds(t, i0);
        }
        let left = match self.parse_primary() {
            Ok(e) => e,
            Err(m) => {
                return Err(m);
            },
        };
        proof {
            assert(pclamp(self.pos(), ws_at(t, i0) + 1, t.len() as int) == self.pos());
            lemma_skip_ws_bounds(t, self.pos());
        }
        let ghost p = self.pos();
        let op_tok = self.peek();
        match op_tok {
            Some(tok2) => match tok2 {
                Token::Operator(op) => {
                    let op_c = op.clone();
                    let _consumed = self.advance();
                    let right = match self.parse_expression() {
                        Ok(e) => e,
                        Err(m) => {
                            return Err(m);
                        },
                    };
                    Ok(
                        Expression::BinaryOp {
                            left: Box::new(left),
                            op: op_c,
                            right: Box::new(right),
                        },
                    )
                },
                _ => Ok(left),
            },
            None => Ok(left),
        }
    }
}

impl<'a> Parser<'a> {
    /// Parse a `var` declaration: keyword, name, `=`, initializer, `;`.
    fn parse_var_decl(&mut self) -> (r: Result<Statement, String>)
        requires
            old(self).wf(),
        ensures
            final(self).wf(),
            final(self).toks() == old(self).toks(),
            final(self).pos() == spec_parse_var_decl(old(self).toks(), old(self).pos()).1,
            old(self).pos() <= final(self).pos(),
            r is Ok ==> final(self).pos() >= ws_at(old(self).toks(), old(self).pos()) + 1,
            match r {
                Ok(st) => spec_parse_var_decl(old(self).toks(), old(self).pos()).0 == Ok::<
                    StatementView,
                    Seq<char>,
                >(st.deep_view()),
                Err(m) => spec_parse_var_decl(old(self).toks(), old(self).pos()).0 == Err::<
                    StatementView,
                    Seq<char>,
                >(m@),
            },
    {
        let ghost t = self.toks();
        let ghost i0 = self.pos();
        proof {
            lemma_skip_ws_bounds(t, i0);
        }
        match self.expect_keyword("var") {
            Ok(u) => {},
            Err(m) => {
                return Err(m);
            },
        }
        proof {
            lemma_skip_ws_bounds(t, self.pos());
        }
        let name = match self.advance() {
            Some(tok) => match tok {
                Token::Identifier(x) => x.clone(),
                _ => {
                    proof {
                        reveal_strlit("Expected identifier after 'var'");
                    }
                    return Err(String::from_str("Expected identifier after 'var'"));
                },
            },
            None => {
                proof {
                    reveal_strlit("Expected identifier after 'var'");
                }
                return Err(String::from_str("Expected identifier after 'var'"));
            },
        };
        proof {
            lemma_skip_ws_bounds(t, self.pos());
        }
        match self.expect_operator("=") {
            Ok(u) => {},
            Err(m) => {
                return Err(m);
            },
        }
        let ghost c = self.pos() - 1;
        let value = match self.parse_expression() {
            Ok(e) => e,
            Err(m) => {
                return Err(m);
            },
        };
        proof {
            assert(pclamp(self.pos(), c + 2, t.len() as int) == self.pos());
        }
        match self.expect_delim(';') {
            Ok(u) => Ok(Statement::VarDecl { name, value }),
            Err(m) => Err(m),
        }
    }

    /// Parse a `return` statement: keyword, expression, `;`.
    fn parse_return(&mut self) -> (r: Result<Statement, String>)
        requires
            old(self).wf(),
        ensures
            final(self).wf(),
            final(self).toks() == old(self).toks(),
            final(self).pos() == spec_parse_return(old(self).toks(), old(self).pos()).1,
            old(self).pos() <= final(self).pos(),
            r is Ok ==> final(self).pos() >= ws_at(old(self).toks(), old(self).pos()) + 1,
            match r {
                Ok(st) => spec_parse_return(old(self).toks(), old(self).pos()).0 == Ok::<
                    StatementView,
                    Seq<char>,
                >(st.deep_view()),
                Err(m) => spec_parse_return(old(self).toks(), old(self).pos()).0 == Err::<
                    StatementView,
                    Seq<char>,
                >(m@),
            },
    {
        let ghost t = self.toks();
        let ghost i0 = self.pos();
        proof {
            lemma_skip_ws_bounds(t, i0);
        }
        match self.expect_keyword("return") {
            Ok(u) => {},
            Err(m) => {
                return Err(m);
            },
        }
        let ghost a = self.pos() - 1;
        let value = match self.parse_expression() {
            Ok(e) => e,
            Err(m) => {
                return Err(m);
            },
        };
        proof {
            assert(pclamp(self.pos(), a + 2, t.len() as int) == self.pos());
        }
        match self.expect_delim(';') {
            Ok(u) => Ok(Statement::Return(value)),
            Err(m) => Err(m),
        }
    }

    /// Parse statements until a closing brace or the end of the tokens.
    #[verifier::rlimit(100)]
    fn parse_statements(&mut self) -> (r: Result<Vec<Statement>, String>)
        requires
            old(self).wf(),
        ensures
            final(self).wf(),
            final(self).toks() == old(self).toks(),
            final(self).pos() == spec_parse_statements(old(self).toks(), old(self).pos()).1,
            old(self).pos() <= final(self).pos(),
            match r {
                Ok(ss) => spec_parse_statements(old(self).toks(), old(self).pos()).0 == Ok::<
                    Seq<StatementView>,
                    Seq<char>,
                >(ss.deep_view()),
                Err(m) => spec_parse_statements(old(self).toks(), old(self).pos()).0 == Err::<
                    Seq<StatementView>,
                    Seq<char>,
                >(m@),
            },
        decreases self.toks().len() - self.pos(),
    {
        let ghost t = self.toks();
        let ghost i0 = self.pos();
        proof {
            lemma_skip_ws_bounds(t, i0);
        }
        let next = self.peek();
        let tok = match next {
            None => {
                let out: Vec<Statement> = Vec::new();
                proof {
                    assert(out.deep_view() =~= Seq::<StatementView>::empty());
                }
                return Ok(out);
            },
            Some(tok) => tok,
        };
        if matches!(tok, Token::Delimiter('}')) {
            let out: Vec<Statement> = Vec::new();
            proof {
                assert(out.deep_view() =~= Seq::<StatementView>::empty());
            }
            return Ok(out);
        }
        let step: Result<Statement, String> = match tok {
            Token::Keyword(kw) => {
                if str_eq(kw.as_str(), "var") {
                    self.parse_var_decl()
                } else if str_eq(kw.as_str(), "return") {
                    self.parse_return()
                } else {
                    self.parse_expr_statement()
                }
            },
            _ => self.parse_expr_statement(),
        };
        match step {
            Err(m) => Err(m),
            Ok(st) => {
                let ghost stv = st.deep_view();
                let ghost j = self.pos();
                proof {
                    assert(pclamp(j, ws_at(t, i0) + 1, t.len() as int) == j);
                    assert(spec_parse_statements(t, i0) == (match spec_parse_statements(t, j) {
                        (Ok(ss), k) => (
                            Ok::<Seq<StatementView>, Seq<char>>(seq![stv] + ss),
                            k,
                        ),
                        (Err(m2), k) => (Err::<Seq<StatementView>, Seq<char>>(m2), k),
                    }));
                }
                let mut rest = match self.parse_statements() {
                    Ok(v) => v,
                    Err(m) => {
                        return Err(m);
                    },
                };
                let ghost rv = rest.deep_view();
                let mut out: Vec<Statement> = Vec::new();
                out.push(st);
                out.append(&mut rest);
                proof {
                    assert(out.deep_view() =~= seq![stv] + rv);
                }
                Ok(out)
            },
        }
    }

    /// Parse one statement that is not introduced by a keyword: an
    /// expression evaluated for effect, ended by `;`.
    fn parse_expr_statement(&mut self) -> (r: Result<Statement, String>)
        requires
            old(self).wf(),
        ensures
            final(self).wf(),
            final(self).toks() == old(self).toks(),
            ({
                let t = old(self).toks();
                let i = old(self).pos();
                let pr = spec_parse_expr_statement(t, i);
                final(self).pos() == pr.1 && old(self).pos() <= final(self).pos() && match r {
                    Ok(st) => pr.0 == Ok::<StatementView, Seq<char>>(st.deep_view())
                        && final(self).pos() >= ws_at(t, i) + 1,
                    Err(m) => pr.0 == Err::<StatementView, Seq<char>>(m@),
                }
            }),
    {
        let ghost t = self.toks();
        let ghost i0 = self.pos();
        let e = match self.parse_expression() {
            Ok(e) => e,
            Err(m) => {
                return Err(m);
            },
        };
        proof {
            assert(pclamp(self.pos(), i0 + 1, t.len() as int) == self.pos());
            lemma_skip_ws_bounds(t, self.pos());
        }
        match self.expect_delim(';') {
            Ok(u) => Ok(Statement::Expr(e)),
            Err(m) => Err(m),
        }
    }
}

impl<'a> Parser<'a> {
    /// Parse the parameter names up to and including the closing
    /// parenthesis; an optional comma may follow each name.
    fn parse_params(&mut self) -> (r: Result<Vec<String>, String>)
        requires
            old(self).wf(),
        ensures
            final(self).wf(),
            final(self).toks() == old(self).toks(),
            final(self).pos() == spec_parse_params(old(self).toks(), old(self).pos()).1,
            old(self).pos() <= final(self).pos(),
            match r {
                Ok(ps) => spec_parse_params(old(self).toks(), old(self).pos()).0 == Ok::<
                    Seq<Seq<char>>,
                    Seq<char>,
                >(ps.deep_view()),
                Err(m) => spec_parse_params(old(self).toks(), old(self).pos()).0 == Err::<
                    Seq<Seq<char>>,
                    Seq<char>,
                >(m@),
            },
        decreases self.toks().len() - self.pos(),
    {
        let ghost t = self.toks();
        let ghost i0 = self.pos();
        proof {
            lemma_skip_ws_bounds(t, i0);
        }
        let next = self.peek();
        let tok = match next {
            None => {
                proof {
                    reveal_strlit("Unexpected token in parameters");
                }
                return Err(String::from_str("Unexpected token in parameters"));
            },
            Some(tok) => tok,
        };
        match tok {
            Token::Identifier(x) => {
                let name = x.clone();
                let _consumed = self.advance();
                let ghost p = ws_at(t, i0);
                proof {
                    lemma_skip_ws_bounds(t, self.pos());
                }
                let comma = match self.peek() {
                    Some(t2) => matches!(t2, Token::Delimiter(',')),
                    None => false,
                };
                if comma {
                    let _consumed2 = self.advance();
                }
                let ghost j = self.pos();
                proof {
                    assert(j == (if ws_at(t, p + 1) < t.len() && t[ws_at(t, p + 1)]
                        == TokenView::Delimiter(',') {
                        pclamp(ws_at(t, p + 1) + 1, p + 1, t.len() as int)
                    } else {
                        pclamp(p + 1, p + 1, t.len() as int)
                    }));
                }
                let mut rest = match self.parse_params() {
                    Ok(v) => v,
                    Err(m) => {
                        return Err(m);
                    },
                };
                let ghost rv = rest.deep_view();
                let mut out: Vec<String> = Vec::new();
                out.push(name);
                out.append(&mut rest);
                proof {
                    assert(out.deep_view() =~= seq![x@] + rv);
                }
                Ok(out)
            },
            Token::Delimiter(c) => {
                if *c == ')' {
                    let _consumed = self.advance();
                    let out: Vec<String> = Vec::new();
                    proof {
                        assert(out.deep_view() =~= Seq::<Seq<char>>::empty());
                    }
                    Ok(out)
                } else {
                    proof {
                        reveal_strlit("Unexpected token in parameters");
                    }
                    Err(String::from_str("Unexpected token in parameters"))
                }
            },
            _ => {
                proof {
                    reveal_strlit("Unexpected token in parameters");
                }
                Err(String::from_str("Unexpected token in parameters"))
            },
        }
    }

    /// Parse one function: the `func` keyword, its name, a parenthesized
    /// parameter list, and a braced statement body.
    pub fn parse_function(&mut self) -> (r: Result<Function, String>)
        requires
            old(self).wf(),
        ensures
            final(self).wf(),
            final(self).toks() == old(self).toks(),
            final(self).pos() == spec_parse_function(old(self).toks(), old(self).pos()).1,
            match r {
                Ok(f) => spec_parse_function(old(self).toks(), old(self).pos()).0 == Ok::<
                    FunctionView,
                    Seq<char>,
                >(f.deep_view()),
                Err(m) => spec_parse_function(old(self).toks(), old(self).pos()).0 == Err::<
                    FunctionView,
                    Seq<char>,
                >(m@),
            },
    {
        let ghost t = self.toks();
        let ghost i0 = self.pos();
        proof {
            lemma_skip_ws_bounds(t, i0);
        }
        match self.expect_keyword("func") {
            Ok(u) => {},
            Err(m) => {
                return Err(m);
            },
        }
        proof {
            lemma_skip_ws_bounds(t, self.pos());
        }
        let name = match self.advance() {
            Some(tok) => match tok {
                Token::Identifier(x) => x.clone(),
                _ => {
                    proof {
                        reveal_strlit("Expected function name");
                    }
                    return Err(String::from_str("Expected function name"));
                },
            },
            None => {
                proof {
                    reveal_strlit("Expected function name");
                }
                return Err(String::from_str("Expected function name"));
            },
        };
        proof {
            lemma_skip_ws_bounds(t, self.pos());
        }
        let ghost c = self.pos();
        match self.expect_delim('(') {
            Ok(u) => {},
            Err(m) => {
                return Err(m);
            },
        }
        let params = match self.parse_params() {
            Ok(v) => v,
            Err(m) => {
                return Err(m);
            },
        };
        proof {
            assert(pclamp(self.pos(), ws_at(t, c) + 1, t.len() as int) == self.pos());
            lemma_skip_ws_bounds(t, self.pos());
        }
        match self.expect_delim('{') {
            Ok(u) => {},
            Err(m) => {
                return Err(m);
            },
        }
        let ghost d = self.pos();
        let body = match self.parse_statements() {
            Ok(v) => v,
            Err(m) => {
                return Err(m);
            },
        };
        proof {
            assert(pclamp(self.pos(), d, t.len() as int) == self.pos());
            lemma_skip_ws_bounds(t, self.pos());
        }
        match self.expect_delim('}') {
            Ok(u) => Ok(Function { name, params, body }),
            Err(m) => Err(m),
        }
    }
}

} // verus!
