//! The Leather parser: turns tokens into sections of `key = value` variables.
use vstd::prelude::*;

use crate::leather::lexer::{Token, TokenType, TokenView, token_views};

verus! {

/// `[ e, e, ... ]`
#[derive(Debug)]
pub struct ArrayLiteral {
    pub lbracket: Token,
    pub expressions: Vec<Expression>,
    pub rbracket: Token,
}

/// An identifier, a keyword, a string or an array.
#[derive(Debug)]
pub enum Expression {
    Identifier(Token),
    Keyword(Token),
    StringLit(Token),
    Array(ArrayLiteral),
}

/// `[name]`
#[derive(Debug)]
pub struct Head {
    pub lbracket: Token,
    pub head: Token,
    pub rbracket: Token,
}

/// `name = value`
#[derive(Debug)]
pub struct Variable {
    pub name: Expression,
    pub value: Expression,
}

/// A head and the variables under it.
#[derive(Debug)]
pub struct Section {
    pub head: Head,
    pub contents: Vec<Variable>,
}

/// A whole file.
#[derive(Debug)]
pub struct Config {
    pub sections: Vec<Section>,
}

/// Why parsing stopped.
#[derive(Debug, Clone, Copy, PartialEq, Eq, Structural)]
pub enum ParseError {
    /// A token of one type was needed and another was found.
    Expected { expected: TokenType, got: TokenType, line: usize, col: usize },
    /// A value is neither an identifier, a keyword, a string nor an array.
    InvalidExpression,
    /// A head names no section that Leather knows.
    InvalidSectionHeader,
    /// Something other than a section head stands at the top level.
    UnexpectedToken { got: TokenType, line: usize, col: usize },
}

pub type ParseResult<T> = Result<T, ParseError>;

// ---------------------------------------------------------------------------------------------
// The mathematical content of the syntax tree.

pub enum ExprView {
    Identifier(TokenView),
    Keyword(TokenView),
    StringLit(TokenView),
    /// An array: its `[` token, its elements and its `]` token.
    Array(TokenView, Seq<ExprView>, TokenView),
}

pub struct VariableView {
    pub name: ExprView,
    pub value: ExprView,
}

/// A section head: its `[` token, the token naming it and its `]` token.
pub struct HeadView {
    pub lbracket: TokenView,
    pub head: TokenView,
    pub rbracket: TokenView,
}

pub struct SectionView {
    pub lbracket: TokenView,
    pub head: TokenView,
    pub rbracket: TokenView,
    pub contents: Seq<VariableView>,
}

pub open spec fn expr_view(e: Expression) -> ExprView
    decreases e,
{
    match e {
        Expression::Identifier(t) => ExprView::Identifier(t@),
        Expression::Keyword(t) => ExprView::Keyword(t@),
        Expression::StringLit(t) => ExprView::StringLit(t@),
        Expression::Array(a) => ExprView::Array(a.lbracket@, exprs_view(a.expressions@), a.rbracket@),
    }
}

pub open spec fn exprs_view(es: Seq<Expression>) -> Seq<ExprView>
    decreases es,
{
    if es.len() == 0 {
        Seq::empty()
    } else {
        exprs_view(es.drop_last()).push(expr_view(es.last()))
    }
}

pub open spec fn variable_view(v: Variable) -> VariableView {
    VariableView { name: expr_view(v.name), value: expr_view(v.value) }
}

pub open spec fn section_view(s: Section) -> SectionView {
    SectionView {
        lbracket: s.head.lbracket@,
        head: s.head.head@,
        rbracket: s.head.rbracket@,
        contents: s.contents@.map_values(|v: Variable| variable_view(v)),
    }
}

pub open spec fn config_view(c: Config) -> Seq<SectionView> {
    c.sections@.map_values(|s: Section| section_view(s))
}


pub proof fn lemma_exprs_view(es: Seq<Expression>)
    ensures
        exprs_view(es).len() == es.len(),
        forall|i: int| 0 <= i < es.len() ==> #[trigger] exprs_view(es)[i] == expr_view(es[i]),
    decreases es.len(),
{
    if es.len() > 0 {
        lemma_exprs_view(es.drop_last());
    }
}

// ---------------------------------------------------------------------------------------------
// The grammar, over token views and positions.

/// The token that stands past the end of the input.
pub open spec fn sentinel_view() -> TokenView {
    TokenView { token_type: TokenType::Illegal, literal: "illegal"@, line: 0, col: 0 }
}

/// The token at `pos`, or the sentinel outside the input.
pub open spec fn tok(toks: Seq<TokenView>, pos: int) -> TokenView {
    if 0 <= pos < toks.len() {
        toks[pos]
    } else {
        sentinel_view()
    }
}

/// The error for a token of the wrong type.
pub open spec fn expected_error(expected: TokenType, t: TokenView) -> ParseError {
    ParseError::Expected { expected, got: t.token_type, line: t.line as usize, col: t.col as usize }
}

/// The token types that stand as a keyword where a value is read.
pub open spec fn is_keyword_type(tt: TokenType) -> bool {
    match tt {
        TokenType::Project | TokenType::Layout | TokenType::Dependecies | TokenType::Link
        | TokenType::Commands | TokenType::Executable | TokenType::Static | TokenType::Object
        | TokenType::Version | TokenType::Entry | TokenType::Mode | TokenType::Name
        | TokenType::Target | TokenType::Script | TokenType::Freestanding | TokenType::True => true,
        _ => false,
    }
}

/// The token types that may name a section.
pub open spec fn is_section_type(tt: TokenType) -> bool {
    match tt {
        TokenType::Project | TokenType::Layout | TokenType::Dependecies | TokenType::Link
        | TokenType::Commands => true,
        _ => false,
    }
}

/// A value at `pos`, and the position after it.
pub open spec fn parse_expr(toks: Seq<TokenView>, pos: int) -> Result<(ExprView, int), ParseError>
    decreases toks.len() - pos, 1int,
{
    let t = tok(toks, pos);
    if t.token_type == TokenType::Identifier {
        Ok((ExprView::Identifier(t), pos + 1))
    } else if is_keyword_type(t.token_type) {
        Ok((ExprView::Keyword(t), pos + 1))
    } else if t.token_type == TokenType::String {
        Ok((ExprView::StringLit(t), pos + 1))
    } else if t.token_type == TokenType::LSquare && 0 <= pos < toks.len() {
        match parse_items(toks, pos + 1, Seq::empty()) {
            Ok((es, p)) => {
                let r = tok(toks, p);
                if r.token_type == TokenType::RSquare {
                    Ok((ExprView::Array(t, es, r), p + 1))
                } else {
                    Err(expected_error(TokenType::RSquare, r))
                }
            },
            Err(e) => Err(e),
        }
    } else {
        Err(ParseError::InvalidExpression)
    }
}

/// The elements of an array from `pos` on, after those in `acc`: values separated by
/// commas, up to a `]` or the end of the tokens; the result stops on that `]` or end.
pub open spec fn parse_items(toks: Seq<TokenView>, pos: int, acc: Seq<ExprView>) -> Result<
    (Seq<ExprView>, int),
    ParseError,
>
    decreases toks.len() + 1 - pos, 0int,
{
    let t = tok(toks, pos);
    if t.token_type == TokenType::RSquare || t.token_type == TokenType::End {
        Ok((acc, pos))
    } else if pos < 0 || pos >= toks.len() {
        Err(ParseError::InvalidExpression)
    } else {
        match parse_expr(toks, pos) {
            Ok((e, p)) => {
                let p2 = if tok(toks, p).token_type == TokenType::Comma {
                    p + 1
                } else {
                    p
                };
                if pos < p2 <= toks.len() {
                    parse_items(toks, p2, acc.push(e))
                } else {
                    Err(ParseError::InvalidExpression)
                }
            },
            Err(e) => Err(e),
        }
    }
}

/// A section head `[name]` at `pos`, and the position after it.
pub open spec fn parse_head(toks: Seq<TokenView>, pos: int) -> Result<(HeadView, int), ParseError> {
    let l = tok(toks, pos);
    if l.token_type != TokenType::LSquare {
        Err(expected_error(TokenType::LSquare, l))
    } else {
        let h = tok(toks, pos + 1);
        let r = tok(toks, pos + 2);
        if r.token_type != TokenType::RSquare {
            Err(expected_error(TokenType::RSquare, r))
        } else if !is_section_type(h.token_type) {
            Err(ParseError::InvalidSectionHeader)
        } else {
            Ok((HeadView { lbracket: l, head: h, rbracket: r }, pos + 3))
        }
    }
}

/// Where the parser stands after a failed head at `pos`: on the token that is
/// not `[`, on the token that is not `]`, or just after the `]` of a head that
/// names no section.
pub open spec fn head_error_pos(toks: Seq<TokenView>, pos: int) -> int {
    if tok(toks, pos).token_type != TokenType::LSquare {
        pos
    } else if tok(toks, pos + 2).token_type != TokenType::RSquare {
        pos + 2
    } else {
        pos + 3
    }
}

/// A variable `name = value` at `pos`, and the position after it.
pub open spec fn parse_var(toks: Seq<TokenView>, pos: int) -> Result<(VariableView, int), ParseError> {
    match parse_expr(toks, pos) {
        Ok((name, p1)) => {
            let a = tok(toks, p1);
            if a.token_type != TokenType::Assign {
                Err(expected_error(TokenType::Assign, a))
            } else {
                match parse_expr(toks, p1 + 1) {
                    Ok((value, p2)) => Ok((VariableView { name, value }, p2)),
                    Err(e) => Err(e),
                }
            }
        },
        Err(e) => Err(e),
    }
}

/// The variables of a section from `pos` on, after those in `acc`, up to the next head or the end.
pub open spec fn parse_vars(toks: Seq<TokenView>, pos: int, acc: Seq<VariableView>) -> Result<
    (Seq<VariableView>, int),
    ParseError,
>
    decreases toks.len() - pos,
{
    let t = tok(toks, pos);
    if t.token_type != TokenType::LSquare && t.token_type != TokenType::End && 0 <= pos < toks.len() {
        match parse_var(toks, pos) {
            Ok((v, p)) => {
                if pos < p <= toks.len() {
                    parse_vars(toks, p, acc.push(v))
                } else {
                    Err(ParseError::InvalidExpression)
                }
            },
            Err(e) => Err(e),
        }
    } else {
        Ok((acc, pos))
    }
}

/// A section at `pos`, and the position after it.
pub open spec fn parse_sec(toks: Seq<TokenView>, pos: int) -> Result<(SectionView, int), ParseError> {
    match parse_head(toks, pos) {
        Ok((head, p)) => match parse_vars(toks, p, Seq::empty()) {
            Ok((contents, p2)) => Ok(
                (SectionView { lbracket: head.lbracket, head: head.head, rbracket: head.rbracket, contents }, p2),
            ),
            Err(e) => Err(e),
        },
        Err(e) => Err(e),
    }
}

/// The sections from `pos` to the `End` token, after those in `acc`, and where parsing stops.
pub open spec fn parse_secs(toks: Seq<TokenView>, pos: int, acc: Seq<SectionView>) -> Result<
    (Seq<SectionView>, int),
    ParseError,
>
    decreases toks.len() + 1 - pos,
{
    let t = tok(toks, pos);
    if t.token_type == TokenType::End {
        Ok((acc, pos))
    } else if t.token_type == TokenType::LSquare && 0 <= pos < toks.len() {
        match parse_sec(toks, pos) {
            Ok((sec, p)) => {
                if pos < p <= toks.len() {
                    parse_secs(toks, p, acc.push(sec))
                } else {
                    Err(ParseError::InvalidExpression)
                }
            },
            Err(e) => Err(e),
        }
    } else {
        Err(ParseError::UnexpectedToken { got: t.token_type, line: t.line as usize, col: t.col as usize })
    }
}

/// The whole file from `pos` on.
pub open spec fn parse_file(toks: Seq<TokenView>, pos: int) -> Result<(Seq<SectionView>, int), ParseError> {
    parse_secs(toks, pos, Seq::empty())
}

// ---------------------------------------------------------------------------------------------
// The parser.

/// Reads a token stream into sections.
#[derive(Debug)]
pub struct Parser {
    tokens: Vec<Token>,
    sentinel: Token,
    pos: usize,
}

impl Parser {
    /// The tokens that the parser reads.
    pub closed spec fn tokens(&self) -> Seq<TokenView> {
        token_views(self.tokens@)
    }

    /// The position of the next token to read.
    pub closed spec fn pos(&self) -> int {
        self.pos as int
    }

    /// The machine limits under which the position cannot overflow.
    pub closed spec fn wf(&self) -> bool {
        &&& self.tokens@.len() + 16 < usize::MAX
        &&& self.pos + 8 < usize::MAX
        &&& self.sentinel@ == sentinel_view()
    }

    /// A parser with no tokens, at position 0.
    pub fn new() -> (p: Self)
        ensures
            p.wf(),
            p.tokens() == Seq::<TokenView>::empty(),
            p.pos() == 0,
    {
        let p = Parser {
            tokens: Vec::new(),
            sentinel: Token {
                literal: "illegal".to_string(),
                token_type: TokenType::Illegal,
                line: 0,
                col: 0,
            },
            pos: 0,
        };
        assert(token_views(p.tokens@) =~= Seq::<TokenView>::empty());
        p
    }

    /// Gives the parser the tokens to read; the position stays where it was.
    pub fn load(&mut self, tokens: Vec<Token>)
        requires
            old(self).wf(),
            tokens@.len() + 16 < usize::MAX,
        ensures
            final(self).wf(),
            final(self).tokens() == token_views(tokens@),
            final(self).pos() == old(self).pos(),
    {
        self.tokens = tokens;
    }

    fn advance(&mut self)
        requires
            old(self).wf(),
            old(self).pos <= old(self).tokens@.len(),
        ensures
            final(self).wf(),
            final(self).tokens@ == old(self).tokens@,
            final(self).pos == old(self).pos + 1,
    {
        self.pos = self.pos + 1;
    }

    fn current_token(&self) -> (t: &Token)
        requires
            self.wf(),
        ensures
            t@ == tok(self.tokens(), self.pos as int),
    {
        if self.pos < self.tokens.len() {
            &self.tokens[self.pos]
        } else {
            &self.sentinel
        }
    }

    fn expect(&self, expected_type: TokenType) -> (r: ParseResult<&Token>)
        requires
            self.wf(),
        ensures
            match r {
                Ok(t) => t@ == tok(self.tokens(), self.pos as int) && t.token_type == expected_type,
                Err(e) => tok(self.tokens(), self.pos as int).token_type != expected_type
                    && e == expected_error(expected_type, tok(self.tokens(), self.pos as int)),
            },
    {
        let t = self.current_token();
        if t.token_type == expected_type {
            Ok(t)
        } else {
            Err(ParseError::Expected {
                expected: expected_type,
                got: t.token_type,
                line: t.line,
                col: t.col,
            })
        }
    }

    fn parse_array_literal(&mut self) -> (r: ParseResult<ArrayLiteral>)
        requires
            old(self).wf(),
            old(self).pos < old(self).tokens@.len(),
            tok(old(self).tokens(), old(self).pos as int).token_type == TokenType::LSquare,
        ensures
            final(self).wf(),
            final(self).tokens@ == old(self).tokens@,
            match parse_expr(old(self).tokens(), old(self).pos as int) {
                Ok((e, p)) => r matches Ok(a) && expr_view(Expression::Array(a)) == e
                    && final(self).pos == p && old(self).pos < p <= old(self).tokens@.len(),
                Err(e) => r == Err::<ArrayLiteral, ParseError>(e),
            },
        decreases old(self).tokens@.len() - old(self).pos, 0int,
    {
        let ghost toks = self.tokens();
        let ghost start = self.pos as int;
        let lbracket = self.expect(TokenType::LSquare)?.clone();
        self.advance();
        let mut expressions: Vec<Expression> = Vec::new();
        proof {
            assert(exprs_view(expressions@) =~= Seq::<ExprView>::empty());
        }
        loop
            invariant
                self.wf(),
                self.tokens() == toks,
                toks == old(self).tokens(),
                self.tokens@ == old(self).tokens@,
                start == old(self).pos,
                start < self.pos <= toks.len(),
                start < toks.len(),
                tok(toks, start).token_type == TokenType::LSquare,
                parse_items(toks, start + 1, Seq::empty()) == parse_items(
                    toks,
                    self.pos as int,
                    exprs_view(expressions@),
                ),
            ensures
                self.wf(),
                self.tokens() == toks,
                self.tokens@ == old(self).tokens@,
                start < self.pos <= toks.len(),
                tok(toks, self.pos as int).token_type == TokenType::RSquare || tok(
                    toks,
                    self.pos as int,
                ).token_type == TokenType::End,
                parse_items(toks, start + 1, Seq::empty()) == parse_items(
                    toks,
                    self.pos as int,
                    exprs_view(expressions@),
                ),
            decreases toks.len() - self.pos,
        {
            let tt = self.current_token().token_type;
            if tt == TokenType::RSquare || tt == TokenType::End {
                break;
            }
            if self.pos >= self.tokens.len() {
                assert(parse_items(toks, self.pos as int, exprs_view(expressions@)) == Err::<
                    (Seq<ExprView>, int),
                    ParseError,
                >(ParseError::InvalidExpression));
                return Err(ParseError::InvalidExpression);
            }
            let ghost before = exprs_view(expressions@);
            let ghost p0 = self.pos as int;
            let expression = match self.parse_expression() {
                Ok(x) => x,
                Err(err) => {
                    assert(parse_items(toks, p0, before) == Err::<(Seq<ExprView>, int), ParseError>(
                        err,
                    ));
                    return Err(err);
                },
            };
            if self.current_token().token_type == TokenType::Comma {
                self.advance();
            }
            let ghost e = expr_view(expression);
            let ghost prev = expressions@;
            expressions.push(expression);
            proof {
                assert(expressions@.drop_last() =~= prev);
                assert(exprs_view(expressions@) == before.push(e));
                assert(p0 < self.pos <= toks.len());
            }
        }
        assert(parse_expr(toks, start) == match parse_items(toks, start + 1, Seq::empty()) {
            Ok((es, p)) => {
                let r = tok(toks, p);
                if r.token_type == TokenType::RSquare {
                    Ok((ExprView::Array(tok(toks, start), es, r), p + 1))
                } else {
                    Err(expected_error(TokenType::RSquare, r))
                }
            },
            Err(e) => Err(e),
        });
        assert(parse_items(toks, self.pos as int, exprs_view(expressions@)) == Ok::<
            (Seq<ExprView>, int),
            ParseError,
        >((exprs_view(expressions@), self.pos as int)));
        let rbracket = self.expect(TokenType::RSquare)?.clone();
        self.advance();
        Ok(ArrayLiteral { lbracket, expressions, rbracket })
    }

    fn parse_expression(&mut self) -> (r: ParseResult<Expression>)
        requires
            old(self).wf(),
        ensures
            final(self).wf(),
            final(self).tokens@ == old(self).tokens@,
            match parse_expr(old(self).tokens(), old(self).pos as int) {
                Ok((e, p)) => r matches Ok(x) && expr_view(x) == e && final(self).pos == p
                    && old(self).pos < p <= old(self).tokens@.len(),
                Err(e) => r == Err::<Expression, ParseError>(e) && (tok(old(self).tokens(), old(self).pos as int).token_type
                    != TokenType::LSquare ==> final(self).pos == old(self).pos),
            },
        decreases old(self).tokens@.len() - old(self).pos, 1int,
    {
        let t = self.current_token();
        let tt = t.token_type;
        if tt == TokenType::Identifier {
            let ident = t.clone();
            self.advance();
            Ok(Expression::Identifier(ident))
        } else if tt == TokenType::Name || tt == TokenType::Version || tt == TokenType::Entry
            || tt == TokenType::Mode || tt == TokenType::Executable || tt == TokenType::Static
            || tt == TokenType::Object || tt == TokenType::Project || tt == TokenType::Layout
            || tt == TokenType::Dependecies || tt == TokenType::Link || tt == TokenType::Commands
            || tt == TokenType::Target || tt == TokenType::Script || tt == TokenType::Freestanding
            || tt == TokenType::True {
            let kw = t.clone();
            self.advance();
            Ok(Expression::Keyword(kw))
        } else if tt == TokenType::String {
            let string = t.clone();
            self.advance();
            Ok(Expression::StringLit(string))
        } else if tt == TokenType::LSquare && self.pos < self.tokens.len() {
            Ok(Expression::Array(self.parse_array_literal()?))
        } else {
            Err(ParseError::InvalidExpression)
        }
    }

    fn parse_head(&mut self) -> (r: ParseResult<Head>)
        requires
            old(self).wf(),
        ensures
            final(self).wf(),
            final(self).tokens@ == old(self).tokens@,
            match parse_head(old(self).tokens(), old(self).pos as int) {
                Ok((h, p)) => r matches Ok(x) && x.lbracket@ == h.lbracket && x.head@ == h.head
                    && x.rbracket@ == h.rbracket && final(self).pos == p && old(self).pos < p <= old(self).tokens@.len(),
                Err(e) => r == Err::<Head, ParseError>(e) && final(self).pos == head_error_pos(
                    old(self).tokens(),
                    old(self).pos as int,
                ),
            },
    {
        let ghost toks = self.tokens();
        let lbracket = self.expect(TokenType::LSquare)?.clone();
        self.advance();
        let t = self.current_token();
        let head_ok = t.token_type == TokenType::Project || t.token_type == TokenType::Layout
            || t.token_type == TokenType::Dependecies || t.token_type == TokenType::Link
            || t.token_type == TokenType::Commands;
        let head = t.clone();
        self.advance();
        let rbracket = self.expect(TokenType::RSquare)?.clone();
        self.advance();
        if !head_ok {
            return Err(ParseError::InvalidSectionHeader);
        }
        Ok(Head { lbracket, head, rbracket })
    }

    fn parse_variable(&mut self) -> (r: ParseResult<Variable>)
        requires
            old(self).wf(),
        ensures
            final(self).wf(),
            final(self).tokens@ == old(self).tokens@,
            match parse_var(old(self).tokens(), old(self).pos as int) {
                Ok((v, p)) => r matches Ok(x) && variable_view(x) == v && final(self).pos == p
                    && old(self).pos < p <= old(self).tokens@.len(),
                Err(e) => r == Err::<Variable, ParseError>(e),
            },
    {
        let identifier = self.parse_expression()?;
        self.expect(TokenType::Assign)?;
        self.advance();
        let value = self.parse_expression()?;
        Ok(Variable { name: identifier, value })
    }

    fn parse_section(&mut self) -> (r: ParseResult<Section>)
        requires
            old(self).wf(),
            old(self).pos < old(self).tokens@.len(),
        ensures
            final(self).wf(),
            final(self).tokens@ == old(self).tokens@,
            match parse_sec(old(self).tokens(), old(self).pos as int) {
                Ok((sec, p)) => r matches Ok(x) && section_view(x) == sec && final(self).pos == p
                    && old(self).pos < p <= old(self).tokens@.len(),
                Err(e) => r == Err::<Section, ParseError>(e),
            },
    {
        let ghost toks = self.tokens();
        let head = self.parse_head()?;
        let ghost p0 = self.pos as int;
        let mut contents: Vec<Variable> = Vec::new();
        assert(contents@.map_values(|v: Variable| variable_view(v)) =~= Seq::<VariableView>::empty());
        while self.current_token().token_type != TokenType::LSquare
            && self.current_token().token_type != TokenType::End && self.pos < self.tokens.len()
            invariant
                self.wf(),
                self.tokens() == toks,
                self.tokens@ == old(self).tokens@,
                old(self).pos < p0 <= self.pos <= toks.len(),
                toks == old(self).tokens(),
                parse_head(toks, old(self).pos as int) == Ok::<(HeadView, int), ParseError>(
                    (HeadView { lbracket: head.lbracket@, head: head.head@, rbracket: head.rbracket@ }, p0),
                ),
                parse_vars(toks, p0, Seq::empty()) == parse_vars(
                    toks,
                    self.pos as int,
                    contents@.map_values(|v: Variable| variable_view(v)),
                ),
            decreases toks.len() - self.pos,
        {
            let ghost before = contents@.map_values(|v: Variable| variable_view(v));
            let content = self.parse_variable()?;
            let ghost prev = contents@;
            contents.push(content);
            assert(contents@.map_values(|v: Variable| variable_view(v)) =~= before.push(
                variable_view(content),
            ));
        }
        let sec = Section { head, contents };
        assert(section_view(sec).contents == contents@.map_values(|v: Variable| variable_view(v)));
        Ok(sec)
    }

    /// Reads sections from the position on, up to the `End` token.
    ///
    /// Fails with the first error that the grammar meets; the position then stands
    /// somewhere after the starting one.
    pub fn parse(&mut self) -> (r: ParseResult<Config>)
        requires
            old(self).wf(),
        ensures
            final(self).wf(),
            final(self).tokens() == old(self).tokens(),
            match parse_file(old(self).tokens(), old(self).pos()) {
                Ok((secs, p)) => r matches Ok(c) && config_view(c) == secs && final(self).pos() == p,
                Err(e) => r == Err::<Config, ParseError>(e),
            },
    {
        let ghost toks = self.tokens();
        let mut sections: Vec<Section> = Vec::new();
        assert(sections@.map_values(|s: Section| section_view(s)) =~= Seq::<SectionView>::empty());
        while self.current_token().token_type != TokenType::End
            invariant
                self.wf(),
                self.tokens() == toks,
                toks == old(self).tokens(),
                self.tokens@ == old(self).tokens@,
                old(self).pos <= self.pos || sections@.len() == 0,
                sections@.len() > 0 ==> self.pos <= toks.len(),
                sections@.len() == 0 ==> self.pos == old(self).pos,
                parse_secs(toks, old(self).pos as int, Seq::empty()) == parse_secs(
                    toks,
                    self.pos as int,
                    sections@.map_values(|s: Section| section_view(s)),
                ),
            decreases toks.len() + 1 - self.pos,
        {
            let t = self.current_token();
            if t.token_type == TokenType::LSquare && self.pos < self.tokens.len() {
                let ghost before = sections@.map_values(|s: Section| section_view(s));
                let section = self.parse_section()?;
                sections.push(section);
                assert(sections@.map_values(|s: Section| section_view(s)) =~= before.push(
                    section_view(section),
                ));
            } else {
                return Err(ParseError::UnexpectedToken { got: t.token_type, line: t.line, col: t.col });
            }
        }
        let c = Config { sections };
        Ok(c)
    }
}

// ---------------------------------------------------------------------------------------------
// Arrays keep every element.

/// A token that stands alone as a value.
pub open spec fn is_value_type(tt: TokenType) -> bool {
    tt == TokenType::Identifier || tt == TokenType::String || is_keyword_type(tt)
}

/// The value that such a token is read as.
pub open spec fn value_of(t: TokenView) -> ExprView {
    if t.token_type == TokenType::Identifier {
        ExprView::Identifier(t)
    } else if t.token_type == TokenType::String {
        ExprView::StringLit(t)
    } else {
        ExprView::Keyword(t)
    }
}

/// From `p` on, `n` single values separated by commas, then `]`.
pub open spec fn comma_list(toks: Seq<TokenView>, p: int, n: nat) -> bool {
    &&& 0 <= p
    &&& p + 2 * n <= toks.len()
    &&& forall|k: int| 0 <= k < n ==> is_value_type(#[trigger] toks[p + 2 * k].token_type)
    &&& forall|k: int| 0 <= k < n - 1 ==> (#[trigger] toks[p + 2 * k + 1]).token_type == TokenType::Comma
    &&& (if n == 0 { tok(toks, p) } else { tok(toks, p + 2 * n - 1) }).token_type == TokenType::RSquare
}

proof fn lemma_items_of_list(toks: Seq<TokenView>, p: int, n: nat, acc: Seq<ExprView>)
    requires
        comma_list(toks, p, n),
    ensures
        parse_items(toks, p, acc) matches Ok((es, q)) && es.len() == acc.len() + n && es.take(acc.len() as int) == acc
            && (forall|k: int| 0 <= k < n ==> #[trigger] es[acc.len() + k] == value_of(toks[p + 2 * k])) && q == (if n
            == 0 {
            p
        } else {
            p + 2 * n - 1
        }),
    decreases n,
{
    if n == 0 {
        assert(acc.take(acc.len() as int) =~= acc);
    } else {
        assert(is_value_type(toks[p + 2 * 0].token_type));
        let t = toks[p];
        assert(tok(toks, p) == t);
        assert(parse_expr(toks, p) == Ok::<_, ParseError>((value_of(t), p + 1)));
        if n == 1 {
            assert(tok(toks, p + 1).token_type == TokenType::RSquare);
            let acc2 = acc.push(value_of(t));
            assert(parse_items(toks, p, acc) == parse_items(toks, p + 1, acc2));
            assert(acc2.take(acc.len() as int) =~= acc);
        } else {
            assert((toks[p + 2 * 0 + 1]).token_type == TokenType::Comma);
            assert(tok(toks, p + 1) == toks[p + 1]);
            let acc2 = acc.push(value_of(t));
            assert(parse_items(toks, p, acc) == parse_items(toks, p + 2, acc2));
            assert(comma_list(toks, p + 2, (n - 1) as nat)) by {
                assert forall|k: int| 0 <= k < n - 1 implies is_value_type(#[trigger] toks[p + 2 + 2 * k].token_type) by {
                    assert(is_value_type(toks[p + 2 * (k + 1)].token_type));
                }
                assert forall|k: int| 0 <= k < n - 2 implies (#[trigger] toks[p + 2 + 2 * k + 1]).token_type
                    == TokenType::Comma by {
                    assert((toks[p + 2 * (k + 1) + 1]).token_type == TokenType::Comma);
                }
                assert(p + 2 + 2 * (n - 1) - 1 == p + 2 * n - 1);
            }
            lemma_items_of_list(toks, p + 2, (n - 1) as nat, acc2);
            let es = parse_items(toks, p + 2, acc2)->Ok_0.0;
            assert(es.take(acc2.len() as int) == acc2);
            assert(es.take(acc.len() as int) =~= acc) by {
                assert forall|i: int| 0 <= i < acc.len() implies es[i] == acc[i] by {
                    assert(es.take(acc2.len() as int)[i] == acc2[i]);
                }
            }
            assert forall|k: int| 0 <= k < n implies #[trigger] es[acc.len() + k] == value_of(toks[p + 2 * k]) by {
                if k == 0 {
                    assert(es.take(acc2.len() as int)[acc.len() as int] == acc2[acc.len() as int]);
                } else {
                    assert(es[acc2.len() + (k - 1)] == value_of(toks[p + 2 + 2 * (k - 1)]));
                }
            }
        }
    }
}

/// An array of single values separated by commas is read with every value, in
/// order: `[` at `p`, then `n` values and the `]`.
pub proof fn lemma_array_keeps_every_element(toks: Seq<TokenView>, p: int, n: nat)
    requires
        0 <= p < toks.len(),
        toks[p].token_type == TokenType::LSquare,
        comma_list(toks, p + 1, n),
    ensures
        parse_expr(toks, p) matches Ok((ExprView::Array(_, es, _), q)) && es.len() == n && (forall|k: int|
            0 <= k < n ==> #[trigger] es[k] == value_of(toks[p + 1 + 2 * k])) && q == p + 1 + (if n == 0 {
            1int
        } else {
            2 * n as int
        }),
{
    lemma_items_of_list(toks, p + 1, n, Seq::empty());
    assert(tok(toks, p) == toks[p]);
    let es = parse_items(toks, p + 1, Seq::empty())->Ok_0.0;
    assert forall|k: int| 0 <= k < n implies #[trigger] es[k] == value_of(toks[p + 1 + 2 * k]) by {
        assert(es[0 + k] == value_of(toks[p + 1 + 2 * k]));
    }
}

} // verus!
