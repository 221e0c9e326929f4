//! Lexical scanning: the token categories of the language and the scanner
//! that turns source text into a token list.

use vstd::prelude::*;

use crate::numerals::{dec_val, is_digit_char};
use crate::text::{chars_of_str, char_to_string, is_letter_char, str_eq, string_from_chars};

verus! {

/// A literal value of the language.
#[derive(Debug, PartialEq)]
pub enum LiteralType {
    Integer(i64),
    Boolean(bool),
    String(String),
}

/// One token of the language.
#[derive(Debug, PartialEq)]
pub enum Token {
    /// `func`, `var`, `if`, `else`, `return`
    Keyword(String),
    Identifier(String),
    Literal(LiteralType),
    Operator(String),
    Delimiter(char),
    Whitespace,
    Comment,
    Unknown(char),
}

/// The mathematical image of a `LiteralType`.
pub enum LiteralTypeView {
    Integer(i64),
    Boolean(bool),
    String(Seq<char>),
}

/// The mathematical image of a `Token`.
pub enum TokenView {
    Keyword(Seq<char>),
    Identifier(Seq<char>),
    Literal(LiteralTypeView),
    Operator(Seq<char>),
    Delimiter(char),
    Whitespace,
    Comment,
    Unknown(char),
}

impl DeepView for LiteralType {
    type V = LiteralTypeView;

    open spec fn deep_view(&self) -> LiteralTypeView {
        match self {
            LiteralType::Integer(n) => LiteralTypeView::Integer(*n),
            LiteralType::Boolean(b) => LiteralTypeView::Boolean(*b),
            LiteralType::String(s) => LiteralTypeView::String(s@),
        }
    }
}

impl DeepView for Token {
    type V = TokenView;

    open spec fn deep_view(&self) -> TokenView {
        match self {
            Token::Keyword(s) => TokenView::Keyword(s@),
            Token::Identifier(s) => TokenView::Identifier(s@),
            Token::Literal(l) => TokenView::Literal(l.deep_view()),
            Token::Operator(s) => TokenView::Operator(s@),
            Token::Delimiter(c) => TokenView::Delimiter(*c),
            Token::Whitespace => TokenView::Whitespace,
            Token::Comment => TokenView::Comment,
            Token::Unknown(c) => TokenView::Unknown(*c),
        }
    }
}

/// ASCII whitespace: space, tab, line feed, vertical tab, form feed,
/// carriage return.
pub open spec fn is_space_char(c: char) -> bool {
    c as u32 == 32 || (9 <= c as u32 <= 13)
}

/// A character that may start an identifier.
pub open spec fn is_ident_start(c: char) -> bool {
    is_letter_char(c) || c == '_'
}

/// A character that may continue an identifier.
pub open spec fn is_ident_char(c: char) -> bool {
    is_letter_char(c) || is_digit_char(c) || c == '_'
}

/// An operator character of the language.
pub open spec fn is_operator_char(c: char) -> bool {
    c == '+' || c == '-' || c == '*' || c == '/' || c == '='
}

/// A delimiter character of the language.
pub open spec fn is_delim_char(c: char) -> bool {
    c == '(' || c == ')' || c == '{' || c == '}' || c == ';'
}

/// The first position at or after `i` that no longer continues an
/// identifier.
pub open spec fn ident_end(s: Seq<char>, i: int) -> int
    decreases s.len() - i,
{
    if 0 <= i < s.len() && is_ident_char(s[i]) {
        ident_end(s, i + 1)
    } else {
        i
    }
}

/// The first position at or after `i` that is not a digit.
pub open spec fn digit_end(s: Seq<char>, i: int) -> int
    decreases s.len() - i,
{
    if 0 <= i < s.len() && is_digit_char(s[i]) {
        digit_end(s, i + 1)
    } else {
        i
    }
}

/// The position just past the newline that ends a comment starting at `i`,
/// or the end of the text.
pub open spec fn comment_end(s: Seq<char>, i: int) -> int
    decreases s.len() - i,
{
    if 0 <= i < s.len() {
        if s[i] == '\n' {
            i + 1
        } else {
            comment_end(s, i + 1)
        }
    } else {
        i
    }
}

/// The position of the closing quote at or after `i`, or the end of the
/// text.
pub open spec fn quote_end(s: Seq<char>, i: int) -> int
    decreases s.len() - i,
{
    if 0 <= i < s.len() {
        if s[i] == '"' {
            i
        } else {
            quote_end(s, i + 1)
        }
    } else {
        i
    }
}

/// An index clamped into a range, for well-founded recursion; the scanners
/// above always land inside the range anyway.
pub open spec fn clamp_idx(j: int, lo: int, hi: int) -> int {
    if j < lo {
        lo
    } else if j > hi {
        hi
    } else {
        j
    }
}

/// The identifier or keyword token starting at `i`.
pub open spec fn word_token(s: Seq<char>, i: int) -> TokenView {
    let j = clamp_idx(ident_end(s, i), i + 1, s.len() as int);
    let word = s.subrange(i, j);
    if word == "func"@ || word == "var"@ || word == "if"@ || word == "else"@ || word
        == "return"@ {
        TokenView::Keyword(word)
    } else if word == "truth"@ {
        TokenView::Literal(LiteralTypeView::Boolean(true))
    } else if word == "falsy"@ {
        TokenView::Literal(LiteralTypeView::Boolean(false))
    } else {
        TokenView::Identifier(word)
    }
}

/// The number token starting at `i`: its digits read in base ten when they
/// fit an `i64`, else an unknown-character token for the first digit.
pub open spec fn number_token(s: Seq<char>, i: int) -> TokenView {
    let j = clamp_idx(digit_end(s, i), i + 1, s.len() as int);
    let ds = s.subrange(i, j);
    if dec_val(ds) <= i64::MAX {
        TokenView::Literal(LiteralTypeView::Integer(dec_val(ds) as i64))
    } else {
        TokenView::Unknown(s[i])
    }
}

/// The string-literal token whose opening quote sits at `i`: the characters
/// up to the closing quote, or to the end of the text if none closes it.
pub open spec fn string_token(s: Seq<char>, i: int) -> TokenView {
    let q = clamp_idx(quote_end(s, i + 1), i + 1, s.len() as int);
    TokenView::Literal(LiteralTypeView::String(s.subrange(i + 1, q)))
}

/// The position just after the string literal whose opening quote sits at
/// `i`.
pub open spec fn string_end(s: Seq<char>, i: int) -> int {
    let q = clamp_idx(quote_end(s, i + 1), i + 1, s.len() as int);
    if q < s.len() {
        q + 1
    } else {
        q
    }
}

/// One scanning step at position `i`: the tokens emitted (none for a
/// whitespace character following emitted whitespace), the next position,
/// and whether the last emitted token is now whitespace.
pub open spec fn tok_step(s: Seq<char>, i: int, prev_ws: bool) -> (Seq<TokenView>, int, bool)
    recommends
        0 <= i < s.len(),
{
    let c = s[i];
    if is_space_char(c) {
        (
            if prev_ws {
                Seq::empty()
            } else {
                seq![TokenView::Whitespace]
            },
            i + 1,
            true,
        )
    } else if c == '/' && i + 1 < s.len() && s[i + 1] == '/' {
        (seq![TokenView::Comment], clamp_idx(comment_end(s, i), i + 1, s.len() as int), false)
    } else if is_operator_char(c) {
        (seq![TokenView::Operator(seq![c])], i + 1, false)
    } else if is_delim_char(c) {
        (seq![TokenView::Delimiter(c)], i + 1, false)
    } else if is_ident_start(c) {
        (seq![word_token(s, i)], clamp_idx(ident_end(s, i), i + 1, s.len() as int), false)
    } else if is_digit_char(c) {
        (seq![number_token(s, i)], clamp_idx(digit_end(s, i), i + 1, s.len() as int), false)
    } else if c == '"' {
        (seq![string_token(s, i)], string_end(s, i), false)
    } else {
        (seq![TokenView::Unknown(c)], i + 1, false)
    }
}

/// The token list of the text from position `i` on. `prev_ws` says whether
/// the token emitted last was whitespace: runs of whitespace collapse into
/// one token.
pub open spec fn spec_tokenize_rec(s: Seq<char>, i: int, prev_ws: bool) -> Seq<TokenView>
    decreases s.len() - i,
{
    if !(0 <= i < s.len()) {
        Seq::empty()
    } else {
        let step = tok_step(s, i, prev_ws);
        step.0 + spec_tokenize_rec(s, clamp_idx(step.1, i + 1, s.len() as int), step.2)
    }
}

/// The token list of a whole text.
pub open spec fn spec_tokenize(s: Seq<char>) -> Seq<TokenView> {
    spec_tokenize_rec(s, 0, false)
}

/// The scanners stay within the text.
proof fn lemma_scan_bounds(s: Seq<char>, i: int)
    requires
        0 <= i <= s.len(),
    ensures
        i <= ident_end(s, i) <= s.len(),
        i <= digit_end(s, i) <= s.len(),
        i <= comment_end(s, i) <= s.len(),
        i <= quote_end(s, i) <= s.len(),
    decreases s.len() - i,
{
    if i < s.len() {
        lemma_scan_bounds(s, i + 1);
    }
}

fn is_space(c: char) -> (r: bool)
    ensures
        r == is_space_char(c),
{
    let u = c as u32;
    u == 32 || (9 <= u && u <= 13)
}

fn is_ident_start_exec(c: char) -> (r: bool)
    ensures
        r == is_ident_start(c),
{
    let u = c as u32;
    (65 <= u && u <= 90) || (97 <= u && u <= 122) || c == '_'
}

fn is_ident_char_exec(c: char) -> (r: bool)
    ensures
        r == is_ident_char(c),
{
    let u = c as u32;
    (65 <= u && u <= 90) || (97 <= u && u <= 122) || (48 <= u && u <= 57) || c == '_'
}

fn is_digit(c: char) -> (r: bool)
    ensures
        r == is_digit_char(c),
{
    let u = c as u32;
    48 <= u && u <= 57
}

proof fn lemma_push_concat(s: Seq<TokenView>, x: TokenView)
    ensures
        s.push(x) == s + seq![x],
{
    assert(s.push(x) =~= s + seq![x]);
}

fn push_token(tokens: &mut Vec<Token>, t: Token)
    ensures
        final(tokens).deep_view() == old(tokens).deep_view().push(t.deep_view()),
{
    let ghost tv = t.deep_view();
    tokens.push(t);
    proof {
        assert(tokens.deep_view() =~= old(tokens).deep_view().push(tv));
    }
}

fn lex_word(cs: &Vec<char>, i: usize) -> (r: (Token, usize))
    requires
        i < cs@.len(),
        is_ident_start(cs@[i as int]),
    ensures
        r.0.deep_view() == word_token(cs@, i as int),
        r.1 == clamp_idx(ident_end(cs@, i as int), i as int + 1, cs@.len() as int),
        i < r.1 <= cs@.len(),
{
    let n = cs.len();
    let mut j = i;
    let mut word_chars: Vec<char> = Vec::new();
    while j < n && is_ident_char_exec(cs[j])
        invariant
            0 <= i <= j <= n,
            n == cs@.len(),
            word_chars@ == cs@.subrange(i as int, j as int),
            ident_end(cs@, i as int) == ident_end(cs@, j as int),
        decreases n - j,
    {
        word_chars.push(cs[j]);
        j = j + 1;
        proof {
            assert(word_chars@ =~= cs@.subrange(i as int, j as int));
        }
    }
    proof {
        lemma_scan_bounds(cs@, i as int);
        assert(ident_end(cs@, j as int) == j);
    }
    let word = string_from_chars(&word_chars);
    let tok = if str_eq(word.as_str(), "func") || str_eq(word.as_str(), "var") || str_eq(
        word.as_str(),
        "if",
    ) || str_eq(word.as_str(), "else") || str_eq(word.as_str(), "return") {
        Token::Keyword(word)
    } else if str_eq(word.as_str(), "truth") {
        Token::Literal(LiteralType::Boolean(true))
    } else if str_eq(word.as_str(), "falsy") {
        Token::Literal(LiteralType::Boolean(false))
    } else {
        Token::Identifier(word)
    };
    (tok, j)
}

fn lex_number(cs: &Vec<char>, i: usize) -> (r: (Token, usize))
    requires
        i < cs@.len(),
        is_digit_char(cs@[i as int]),
    ensures
        r.0.deep_view() == number_token(cs@, i as int),
        r.1 == clamp_idx(digit_end(cs@, i as int), i as int + 1, cs@.len() as int),
        i < r.1 <= cs@.len(),
{
    let n = cs.len();
    let mut j = i;
    let mut digit_chars: Vec<char> = Vec::new();
    while j < n && is_digit(cs[j])
        invariant
            0 <= i <= j <= n,
            n == cs@.len(),
            digit_chars@ == cs@.subrange(i as int, j as int),
            forall|k: int|
                0 <= k < digit_chars@.len() ==> is_digit_char(#[trigger] digit_chars@[k]),
            digit_end(cs@, i as int) == digit_end(cs@, j as int),
        decreases n - j,
    {
        digit_chars.push(cs[j]);
        j = j + 1;
        proof {
            assert(digit_chars@ =~= cs@.subrange(i as int, j as int));
        }
    }
    proof {
        lemma_scan_bounds(cs@, i as int);
        assert(digit_end(cs@, j as int) == j);
    }
    let tok = match crate::numerals::parse_i64_digits(&digit_chars) {
        Some(v) => Token::Literal(LiteralType::Integer(v)),
        None => Token::Unknown(cs[i]),
    };
    (tok, j)
}

fn lex_string(cs: &Vec<char>, i: usize) -> (r: (Token, usize))
    requires
        i < cs@.len(),
        cs@[i as int] == '"',
    ensures
        r.0.deep_view() == string_token(cs@, i as int),
        r.1 == string_end(cs@, i as int),
        i < r.1 <= cs@.len(),
{
    let n = cs.len();
    let mut j = i + 1;
    let mut content_chars: Vec<char> = Vec::new();
    while j < n && cs[j] != '"'
        invariant
            0 <= i,
            i + 1 <= j <= n,
            n == cs@.len(),
            content_chars@ == cs@.subrange(i as int + 1, j as int),
            quote_end(cs@, i as int + 1) == quote_end(cs@, j as int),
        decreases n - j,
    {
        content_chars.push(cs[j]);
        j = j + 1;
        proof {
            assert(content_chars@ =~= cs@.subrange(i as int + 1, j as int));
        }
    }
    proof {
        lemma_scan_bounds(cs@, i as int + 1);
        assert(quote_end(cs@, j as int) == j);
    }
    let content = string_from_chars(&content_chars);
    let next = if j < n {
        j + 1
    } else {
        j
    };
    (Token::Literal(LiteralType::String(content)), next)
}

fn lex_comment(cs: &Vec<char>, i: usize) -> (r: usize)
    requires
        i < cs@.len(),
        cs@[i as int] != '\n',
    ensures
        r == clamp_idx(comment_end(cs@, i as int), i as int + 1, cs@.len() as int),
        i < r <= cs@.len(),
{
    let n = cs.len();
    let mut j = i;
    while j < n && cs[j] != '\n'
        invariant
            0 <= i <= j <= n,
            n == cs@.len(),
            comment_end(cs@, i as int) == comment_end(cs@, j as int),
        decreases n - j,
    {
        j = j + 1;
    }
    proof {
        lemma_scan_bounds(cs@, i as int);
    }
    if j < n {
        j + 1
    } else {
        j
    }
}

/// Scan source text into tokens. An `Err` input is handed back untouched, so
/// the scanner can sit directly behind a reader.
#[verifier::rlimit(100)]
pub fn tokenize<E>(input: Result<&str, E>) -> (r: Result<Vec<Token>, E>)
    ensures
        match input {
            Ok(s) => (r matches Ok(toks) && toks.deep_view() == spec_tokenize(s@)),
            Err(e) => (r matches Err(e2) && e2 == e),
        },
{
    let s = match input {
        Ok(s) => s,
        Err(e) => {
            return Err(e);
        },
    };
    let cs = chars_of_str(s);
    let n = cs.len();
    let mut tokens: Vec<Token> = Vec::new();
    let mut i: usize = 0;
    let mut prev_ws = false;
    proof {
        assert(Seq::<TokenView>::empty() + spec_tokenize_rec(s@, 0, false) =~= spec_tokenize(s@));
    }
    while i < n
        invariant
            0 <= i <= n,
            n == cs@.len(),
            cs@ == s@,
            spec_tokenize(s@) == tokens.deep_view() + spec_tokenize_rec(s@, i as int, prev_ws),
        decreases n - i,
    {
        let ghost i0 = i as int;
        let ghost toks0 = tokens.deep_view();
        let ghost pw0 = prev_ws;
        let ghost step = tok_step(s@, i0, pw0);
        let c = cs[i];
        if is_space(c) {
            if !prev_ws {
                push_token(&mut tokens, Token::Whitespace);
            }
            prev_ws = true;
            i = i + 1;
            proof {
                assert(step == (
                    if pw0 {
                        Seq::<TokenView>::empty()
                    } else {
                        seq![TokenView::Whitespace]
                    },
                    i0 + 1,
                    true,
                ));
                assert(tokens.deep_view() =~= toks0 + step.0);
            }
        } else if c == '/' && i + 1 < n && cs[i + 1] == '/' {
            let next = lex_comment(&cs, i);
            push_token(&mut tokens, Token::Comment);
            i = next;
            prev_ws = false;
            proof {
                assert(step == (
                    seq![TokenView::Comment],
                    clamp_idx(comment_end(s@, i0), i0 + 1, s@.len() as int),
                    false,
                ));
                assert(tokens.deep_view() =~= toks0 + step.0);
            }
        } else if c == '+' || c == '-' || c == '*' || c == '/' || c == '=' {
            push_token(&mut tokens, Token::Operator(char_to_string(c)));
            i = i + 1;
            prev_ws = false;
            proof {
                assert(step == (seq![TokenView::Operator(seq![c])], i0 + 1, false));
                assert(tokens.deep_view() =~= toks0 + step.0);
            }
        } else if c == '(' || c == ')' || c == '{' || c == '}' || c == ';' {
            push_token(&mut tokens, Token::Delimiter(c));
            i = i + 1;
            prev_ws = false;
            proof {
                assert(step == (seq![TokenView::Delimiter(c)], i0 + 1, false));
                assert(tokens.deep_view() =~= toks0 + step.0);
            }
        } else if is_ident_start_exec(c) {
            let (tok, next) = lex_word(&cs, i);
            let ghost tv = tok.deep_view();
            push_token(&mut tokens, tok);
            i = next;
            prev_ws = false;
            proof {
                assert(step == (
                    seq![word_token(s@, i0)],
                    clamp_idx(ident_end(s@, i0), i0 + 1, s@.len() as int),
                    false,
                ));
                assert(tv == word_token(s@, i0));
                assert(tokens.deep_view() =~= toks0 + step.0);
            }
        } else if is_digit(c) {
            let (tok, next) = lex_number(&cs, i);
            let ghost tv = tok.deep_view();
            push_token(&mut tokens, tok);
            i = next;
            prev_ws = false;
            proof {
                assert(step == (
                    seq![number_token(s@, i0)],
                    clamp_idx(digit_end(s@, i0), i0 + 1, s@.len() as int),
                    false,
                ));
                assert(tv == number_token(s@, i0));
                assert(tokens.deep_view() =~= toks0 + step.0);
            }
        } else if c == '"' {
            let (tok, next) = lex_string(&cs, i);
            let ghost tv = tok.deep_view();
            push_token(&mut tokens, tok);
            i = next;
            prev_ws = false;
            proof {
                assert(step == (seq![string_token(s@, i0)], string_end(s@, i0), false));
                assert(tv == string_token(s@, i0));
                assert(tokens.deep_view() =~= toks0 + step.0);
            }
        } else {
            push_token(&mut tokens, Token::Unknown(c));
            i = i + 1;
            prev_ws = false;
            proof {
                assert(s@[i0] == c);
                assert(step.2 == false);
                assert(step.1 == i0 + 1);
                assert(step.0 == seq![TokenView::Unknown(c)]);
                lemma_push_concat(toks0, TokenView::Unknown(c));
                assert(tokens.deep_view() == toks0.push(TokenView::Unknown(c)));
                assert(tokens.deep_view() =~= toks0 + step.0);
            }
        }
        proof {
            assert(tokens.deep_view() =~= toks0 + step.0);
            assert(clamp_idx(step.1, i0 + 1, s@.len() as int) == i as int);
            assert(step.2 == prev_ws);
            assert(spec_tokenize_rec(s@, i0, pw0) == step.0 + spec_tokenize_rec(
                s@,
                i as int,
                prev_ws,
            ));
            assert(toks0 + (step.0 + spec_tokenize_rec(s@, i as int, prev_ws)) =~= (toks0 + step.0)
                + spec_tokenize_rec(s@, i as int, prev_ws));
        }
    }
    proof {
        assert(spec_tokenize_rec(s@, n as int, prev_ws) =~= Seq::<TokenView>::empty());
        assert(tokens.deep_view() + Seq::<TokenView>::empty() =~= tokens.deep_view());
    }
    Ok(tokens)
}

} // verus!
