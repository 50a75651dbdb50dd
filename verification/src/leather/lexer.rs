//! The Leather lexer: turns the characters of a `belt.lethr` file into tokens.
use vstd::prelude::*;

use crate::text::{char_is_alphabetic, is_alphabetic, push_char, chars_eq};

verus! {

/// The kinds of token that Leather knows.
#[derive(Debug, Clone, Copy, PartialEq, Eq, Structural)]
pub enum TokenType {
    Identifier,
    String,
    Project,
    Layout,
    Dependecies,
    Link,
    Commands,
    Executable,
    Static,
    Object,
    Version,
    Entry,
    Mode,
    Name,
    Target,
    Script,
    Freestanding,
    True,
    Illegal,
    Assign,
    Comma,
    LSquare,
    RSquare,
    End,
}

/// A token with its text and the position that the lexer had reached when it produced it.
#[derive(Debug)]
pub struct Token {
    pub token_type: TokenType,
    pub literal: String,
    pub line: usize,
    pub col: usize,
}

/// The mathematical content of a [`Token`].
pub struct TokenView {
    pub token_type: TokenType,
    pub literal: Seq<char>,
    pub line: int,
    pub col: int,
}

impl View for Token {
    type V = TokenView;

    open spec fn view(&self) -> TokenView {
        TokenView {
            token_type: self.token_type,
            literal: self.literal@,
            line: self.line as int,
            col: self.col as int,
        }
    }
}

impl Clone for Token {
    fn clone(&self) -> (t: Self)
        ensures
            t == *self,
    {
        Token {
            token_type: self.token_type,
            literal: self.literal.clone(),
            line: self.line,
            col: self.col,
        }
    }
}

impl Token {
    /// An illegal, empty token at line 0, column 0.
    pub fn new() -> (t: Self)
        ensures
            t@ == (TokenView {
                token_type: TokenType::Illegal,
                literal: Seq::empty(),
                line: 0,
                col: 0,
            }),
    {
        Token { token_type: TokenType::Illegal, literal: String::new(), line: 0, col: 0 }
    }
}

/// The views of a sequence of tokens.
pub open spec fn token_views(ts: Seq<Token>) -> Seq<TokenView> {
    ts.map_values(|t: Token| t@)
}

/// Why lexing stopped.
#[derive(Debug, Clone, Copy, PartialEq, Eq, Structural)]
pub enum LexError {
    /// A `##` comment was opened and never closed.
    UnterminatedComment,
}

/// Where the lexer stands in its input: an index and the line and column it has counted.
pub struct Cursor {
    pub pos: int,
    pub line: int,
    pub col: int,
}

/// The character at `pos`, or `'\0'` outside the input.
pub open spec fn char_at(input: Seq<char>, pos: int) -> char {
    if 0 <= pos < input.len() {
        input[pos]
    } else {
        '\0'
    }
}

/// One step forward: a newline moves to column 1 of the next line, anything else one column right.
pub open spec fn step(input: Seq<char>, c: Cursor) -> Cursor {
    if char_at(input, c.pos) == '\n' {
        Cursor { pos: c.pos + 1, line: c.line + 1, col: 1 }
    } else {
        Cursor { pos: c.pos + 1, line: c.line, col: c.col + 1 }
    }
}

/// Inside a `##` comment: everything up to and including the closing `##`;
/// `None` when the input ends first.
pub open spec fn skip_block_comment(input: Seq<char>, c: Cursor) -> Option<Cursor>
    decreases input.len() - c.pos,
{
    if c.pos >= input.len() {
        None
    } else if char_at(input, c.pos) == '#' && char_at(input, c.pos + 1) == '#' {
        Some(step(input, step(input, c)))
    } else {
        skip_block_comment(input, step(input, c))
    }
}

/// Inside a `#` comment: everything up to the next newline, which stays.
pub open spec fn skip_line_comment(input: Seq<char>, c: Cursor) -> Cursor
    decreases input.len() - c.pos,
{
    if c.pos < input.len() && char_at(input, c.pos) != '\n' {
        skip_line_comment(input, step(input, c))
    } else {
        c
    }
}

/// A comment starting at `c`, if `c` is on a `#`: `##` opens a block comment,
/// a single `#` a line comment.
pub open spec fn skip_comment(input: Seq<char>, c: Cursor) -> Option<Cursor> {
    if char_at(input, c.pos) == '#' {
        let c1 = step(input, c);
        if char_at(input, c1.pos) == '#' {
            skip_block_comment(input, step(input, c1))
        } else {
            Some(skip_line_comment(input, c1))
        }
    } else {
        Some(c)
    }
}

pub open spec fn is_blank(ch: char) -> bool {
    ch == ' ' || ch == '\t' || ch == '\n' || ch == '\r'
}

/// Blanks and comments from `c` on; `None` when a block comment is left open.
pub open spec fn skip_blanks(input: Seq<char>, c: Cursor) -> Option<Cursor>
    decreases input.len() - c.pos,
{
    if c.pos < input.len() && is_blank(char_at(input, c.pos)) {
        skip_blanks(input, step(input, c))
    } else if 0 <= c.pos < input.len() && char_at(input, c.pos) == '#' {
        match skip_comment(input, c) {
            Some(c2) => {
                proof {
                    lemma_skip_comment_advances(input, c);
                }
                skip_blanks(input, c2)
            },
            None => None,
        }
    } else {
        Some(c)
    }
}

/// Whether the character at `pos` continues an identifier.
pub open spec fn ident_char_at(input: Seq<char>, pos: int) -> bool {
    0 <= pos < input.len() && (char_is_alphabetic(input[pos]) || input[pos] == '_')
}

/// The end of the identifier that continues at `c`.
pub open spec fn scan_identifier(input: Seq<char>, c: Cursor) -> Cursor
    decreases input.len() - c.pos,
{
    if ident_char_at(input, c.pos) {
        scan_identifier(input, step(input, c))
    } else {
        c
    }
}

/// The keyword that a word spells, if any.
pub open spec fn keyword_of(s: Seq<char>) -> Option<TokenType> {
    if s == seq!['p', 'r', 'o', 'j', 'e', 'c', 't'] {
        Some(TokenType::Project)
    } else if s == seq!['l', 'a', 'y', 'o', 'u', 't'] {
        Some(TokenType::Layout)
    } else if s == seq!['d', 'e', 'p', 'e', 'n', 'd', 'e', 'c', 'i', 'e', 's'] {
        Some(TokenType::Dependecies)
    } else if s == seq!['d', 'e', 'p', 'e', 'n', 'd', 'e', 'n', 'c', 'i', 'e', 's'] {
        Some(TokenType::Dependecies)
    } else if s == seq!['l', 'i', 'n', 'k'] {
        Some(TokenType::Link)
    } else if s == seq!['c', 'o', 'm', 'm', 'a', 'n', 'd', 's'] {
        Some(TokenType::Commands)
    } else if s == seq!['e', 'x', 'e', 'c', 'u', 't', 'a', 'b', 'l', 'e'] {
        Some(TokenType::Executable)
    } else if s == seq!['s', 't', 'a', 't', 'i', 'c'] {
        Some(TokenType::Static)
    } else if s == seq!['o', 'b', 'j', 'e', 'c', 't'] {
        Some(TokenType::Object)
    } else if s == seq!['v', 'e', 'r', 's', 'i', 'o', 'n'] {
        Some(TokenType::Version)
    } else if s == seq!['e', 'n', 't', 'r', 'y'] {
        Some(TokenType::Entry)
    } else if s == seq!['m', 'o', 'd', 'e'] {
        Some(TokenType::Mode)
    } else if s == seq!['n', 'a', 'm', 'e'] {
        Some(TokenType::Name)
    } else if s == seq!['t', 'a', 'r', 'g', 'e', 't'] {
        Some(TokenType::Target)
    } else if s == seq!['s', 'c', 'r', 'i', 'p', 't'] {
        Some(TokenType::Script)
    } else if s == seq!['f', 'r', 'e', 'e', 's', 't', 'a', 'n', 'd', 'i', 'n', 'g'] {
        Some(TokenType::Freestanding)
    } else if s == seq!['t', 'r', 'u', 'e'] {
        Some(TokenType::True)
    } else {
        None
    }
}

/// What a backslash escape stands for inside a string; unknown escapes stand for nothing.
pub open spec fn unescape(acc: Seq<char>, e: char) -> Seq<char> {
    if e == 'n' {
        acc.push('\n')
    } else if e == 't' {
        acc.push('\t')
    } else if e == 'r' {
        acc.push('\r')
    } else if e == '"' {
        acc.push('"')
    } else if e == '\\' {
        acc.push('\\')
    } else {
        acc
    }
}

/// The text of the token that an unterminated string gives.
pub open spec fn unterminated_string_text() -> Seq<char> {
    "unterminated string"@
}

/// The rest of a string literal, from just after its opening quote; `acc` holds
/// the characters read so far. A newline or the end of the input leaves the
/// string unterminated.
pub open spec fn scan_string(input: Seq<char>, c: Cursor, acc: Seq<char>) -> (TokenView, Cursor)
    decreases input.len() + 1 - c.pos,
{
    let ch = char_at(input, c.pos);
    if ch == '\0' || ch == '\n' || c.pos < 0 || c.pos >= input.len() {
        (
            TokenView {
                token_type: TokenType::Illegal,
                literal: unterminated_string_text(),
                line: c.line,
                col: c.col,
            },
            c,
        )
    } else if ch == '"' {
        let c1 = step(input, c);
        (TokenView { token_type: TokenType::String, literal: acc, line: c1.line, col: c1.col }, c1)
    } else if ch == '\\' {
        let c1 = step(input, c);
        scan_string(input, step(input, c1), unescape(acc, char_at(input, c1.pos)))
    } else {
        scan_string(input, step(input, c), acc.push(ch))
    }
}

/// The token type of a one-character symbol.
pub open spec fn symbol_type(ch: char) -> TokenType {
    if ch == '[' {
        TokenType::LSquare
    } else if ch == ']' {
        TokenType::RSquare
    } else if ch == '=' {
        TokenType::Assign
    } else if ch == ',' {
        TokenType::Comma
    } else {
        TokenType::Illegal
    }
}

/// The token that starts at `c`, on a character of the input, and where the lexer stands after it.
pub open spec fn next_token(input: Seq<char>, c: Cursor) -> (TokenView, Cursor) {
    let ch = char_at(input, c.pos);
    if char_is_alphabetic(ch) || ch == '_' {
        let e = scan_identifier(input, c);
        let word = input.subrange(c.pos, e.pos);
        let tt = match keyword_of(word) {
            Some(k) => k,
            None => TokenType::Identifier,
        };
        (TokenView { token_type: tt, literal: word, line: e.line, col: e.col }, e)
    } else if ch == '"' {
        scan_string(input, step(input, c), Seq::empty())
    } else {
        (
            TokenView { token_type: symbol_type(ch), literal: seq![ch], line: c.line, col: c.col },
            step(input, c),
        )
    }
}

/// The tokens from `c` to the end of the input, after those in `acc`, and where the lexer stops.
pub open spec fn lex_tokens(input: Seq<char>, c: Cursor, acc: Seq<TokenView>) -> Result<
    (Seq<TokenView>, Cursor),
    LexError,
>
    decreases input.len() + 1 - c.pos,
{
    if c.pos >= input.len() {
        Ok((acc, c))
    } else {
        match skip_blanks(input, c) {
            None => Err(LexError::UnterminatedComment),
            Some(c1) => {
                if c1.pos >= input.len() || c1.pos < 0 {
                    Ok((acc, c1))
                } else {
                    let (t, c2) = next_token(input, c1);
                    proof {
                        lemma_skip_blanks_forward(input, c);
                        lemma_next_token_advances(input, c1);
                    }
                    lex_tokens(input, c2, acc.push(t))
                }
            },
        }
    }
}

/// The whole token stream from `c`: the tokens, then an `End` token at the place where lexing stopped.
pub open spec fn lex(input: Seq<char>, c: Cursor) -> Result<(Seq<TokenView>, Cursor), LexError> {
    match lex_tokens(input, c, Seq::empty()) {
        Ok((ts, e)) => Ok(
            (
                ts.push(TokenView { token_type: TokenType::End, literal: Seq::empty(), line: e.line, col: e.col }),
                e,
            ),
        ),
        Err(err) => Err(err),
    }
}

// ---------------------------------------------------------------------------------------------
// Lemmas about the cursor functions.

pub proof fn lemma_skip_block_advances(input: Seq<char>, c: Cursor)
    ensures
        skip_block_comment(input, c) matches Some(c2) ==> c.pos < c2.pos <= input.len(),
    decreases input.len() - c.pos,
{
    if c.pos < input.len() && !(char_at(input, c.pos) == '#' && char_at(input, c.pos + 1) == '#') {
        lemma_skip_block_advances(input, step(input, c));
    }
}

pub proof fn lemma_skip_line_forward(input: Seq<char>, c: Cursor)
    ensures
        skip_line_comment(input, c).pos >= c.pos,
        c.pos <= input.len() ==> skip_line_comment(input, c).pos <= input.len(),
    decreases input.len() - c.pos,
{
    if c.pos < input.len() && char_at(input, c.pos) != '\n' {
        lemma_skip_line_forward(input, step(input, c));
    }
}

pub proof fn lemma_skip_comment_advances(input: Seq<char>, c: Cursor)
    requires
        char_at(input, c.pos) == '#',
    ensures
        skip_comment(input, c) matches Some(c2) ==> c.pos < c2.pos <= input.len(),
{
    let c1 = step(input, c);
    if char_at(input, c1.pos) == '#' {
        lemma_skip_block_advances(input, step(input, c1));
    } else {
        lemma_skip_line_forward(input, c1);
    }
}

pub proof fn lemma_skip_blanks_forward(input: Seq<char>, c: Cursor)
    ensures
        skip_blanks(input, c) matches Some(c2) ==> c2.pos >= c.pos,
        c.pos <= input.len() ==> (skip_blanks(input, c) matches Some(c2) ==> c2.pos <= input.len()),
    decreases input.len() - c.pos,
{
    if c.pos < input.len() && is_blank(char_at(input, c.pos)) {
        lemma_skip_blanks_forward(input, step(input, c));
    } else if 0 <= c.pos < input.len() && char_at(input, c.pos) == '#' {
        lemma_skip_comment_advances(input, c);
        if let Some(c2) = skip_comment(input, c) {
            lemma_skip_blanks_forward(input, c2);
        }
    }
}

pub proof fn lemma_scan_identifier_forward(input: Seq<char>, c: Cursor)
    ensures
        scan_identifier(input, c).pos >= c.pos,
        c.pos <= input.len() ==> scan_identifier(input, c).pos <= input.len(),
    decreases input.len() - c.pos,
{
    if ident_char_at(input, c.pos) {
        lemma_scan_identifier_forward(input, step(input, c));
    }
}

pub proof fn lemma_scan_string_forward(input: Seq<char>, c: Cursor, acc: Seq<char>)
    ensures
        scan_string(input, c, acc).1.pos >= c.pos,
        c.pos <= input.len() + 1 ==> scan_string(input, c, acc).1.pos <= input.len() + 1,
    decreases input.len() + 1 - c.pos,
{
    let ch = char_at(input, c.pos);
    if ch == '\0' || ch == '\n' || c.pos < 0 || c.pos >= input.len() {
    } else if ch == '"' {
    } else if ch == '\\' {
        let c1 = step(input, c);
        lemma_scan_string_forward(input, step(input, c1), unescape(acc, char_at(input, c1.pos)));
    } else {
        lemma_scan_string_forward(input, step(input, c), acc.push(ch));
    }
}

pub proof fn lemma_next_token_advances(input: Seq<char>, c: Cursor)
    requires
        0 <= c.pos < input.len(),
    ensures
        c.pos < next_token(input, c).1.pos <= input.len() + 1,
{
    let ch = char_at(input, c.pos);
    if char_is_alphabetic(ch) || ch == '_' {
        lemma_scan_identifier_forward(input, step(input, c));
    } else if ch == '"' {
        lemma_scan_string_forward(input, step(input, c), Seq::empty());
    }
}

/// A token's type agrees with its text: identifiers are not keywords, and a keyword
/// token spells its keyword.
pub open spec fn well_classified(t: TokenView) -> bool {
    &&& t.token_type == TokenType::Identifier ==> keyword_of(t.literal) is None
    &&& keyword_of(t.literal) is Some && t.token_type != TokenType::String && t.token_type != TokenType::Illegal
        ==> keyword_of(t.literal) == Some(t.token_type)
    &&& (t.token_type == TokenType::Project || t.token_type == TokenType::Layout
        || t.token_type == TokenType::Dependecies || t.token_type == TokenType::Link
        || t.token_type == TokenType::Commands || t.token_type == TokenType::Executable
        || t.token_type == TokenType::Static || t.token_type == TokenType::Object
        || t.token_type == TokenType::Version || t.token_type == TokenType::Entry
        || t.token_type == TokenType::Mode || t.token_type == TokenType::Name
        || t.token_type == TokenType::Target || t.token_type == TokenType::Script
        || t.token_type == TokenType::Freestanding || t.token_type == TokenType::True)
        ==> keyword_of(t.literal) == Some(t.token_type)
}

pub proof fn lemma_keyword_of_not_special(s: Seq<char>)
    ensures
        keyword_of(s) matches Some(k) ==> k != TokenType::End && k != TokenType::Identifier
            && k != TokenType::String && k != TokenType::Illegal,
{
}

pub proof fn lemma_scan_string_type(input: Seq<char>, c: Cursor, acc: Seq<char>)
    ensures
        scan_string(input, c, acc).0.token_type == TokenType::String || scan_string(input, c, acc).0.token_type
            == TokenType::Illegal,
    decreases input.len() + 1 - c.pos,
{
    let ch = char_at(input, c.pos);
    if ch == '\0' || ch == '\n' || c.pos < 0 || c.pos >= input.len() {
    } else if ch == '"' {
    } else if ch == '\\' {
        let c1 = step(input, c);
        lemma_scan_string_type(input, step(input, c1), unescape(acc, char_at(input, c1.pos)));
    } else {
        lemma_scan_string_type(input, step(input, c), acc.push(ch));
    }
}

pub proof fn lemma_next_token_props(input: Seq<char>, c: Cursor)
    ensures
        next_token(input, c).0.token_type != TokenType::End,
        well_classified(next_token(input, c).0),
{
    let ch = char_at(input, c.pos);
    if char_is_alphabetic(ch) || ch == '_' {
        let e = scan_identifier(input, c);
        lemma_keyword_of_not_special(input.subrange(c.pos, e.pos));
    } else if ch == '"' {
        lemma_scan_string_type(input, step(input, c), Seq::empty());
        lemma_keyword_of_not_special(next_token(input, c).0.literal);
    } else {
        lemma_keyword_of_not_special(seq![ch]);
    }
}

pub proof fn lemma_lex_tokens_props(input: Seq<char>, c: Cursor, acc: Seq<TokenView>)
    requires
        0 <= c.pos,
        forall|i: int| 0 <= i < acc.len() ==> (#[trigger] acc[i]).token_type != TokenType::End && well_classified(acc[i]),
    ensures
        lex_tokens(input, c, acc) matches Ok((ts, e)) ==> {
            &&& ts.len() <= acc.len() + if c.pos < input.len() { input.len() - c.pos } else { 0 }
            &&& forall|i: int| 0 <= i < ts.len() ==> (#[trigger] ts[i]).token_type != TokenType::End && well_classified(ts[i])
        },
    decreases input.len() + 1 - c.pos,
{
    if c.pos < input.len() {
        lemma_skip_blanks_forward(input, c);
        match skip_blanks(input, c) {
            None => {},
            Some(c1) => {
                if c1.pos < input.len() && c1.pos >= 0 {
                    let (t, c2) = next_token(input, c1);
                    lemma_next_token_advances(input, c1);
                    lemma_next_token_props(input, c1);
                    let acc2 = acc.push(t);
                    assert forall|i: int| 0 <= i < acc2.len() implies (#[trigger] acc2[i]).token_type
                        != TokenType::End && well_classified(acc2[i]) by {
                        if i < acc.len() {
                            assert(acc2[i] == acc[i]);
                        }
                    }
                    lemma_lex_tokens_props(input, c2, acc2);
                }
            },
        }
    }
}

/// Lexing from the start gives at most one token per character, plus the `End` token.
pub proof fn lemma_lex_token_count(input: Seq<char>, c: Cursor)
    requires
        c.pos == 0,
    ensures
        lex(input, c) matches Ok((ts, _)) ==> ts.len() <= input.len() + 1,
{
    lemma_lex_tokens_props(input, c, Seq::empty());
}

/// A successful lexing ends with exactly one `End` token, which stands where lexing
/// stopped; and every token's type agrees with its text (identifiers are never
/// keywords, keyword tokens spell their keyword).
pub proof fn lemma_lex_end_and_keywords(input: Seq<char>, c: Cursor)
    requires
        0 <= c.pos,
    ensures
        lex(input, c) matches Ok((ts, e)) ==> {
            &&& ts.len() >= 1
            &&& ts.last().token_type == TokenType::End
            &&& ts.last().line == e.line && ts.last().col == e.col
            &&& forall|i: int| 0 <= i < ts.len() - 1 ==> (#[trigger] ts[i]).token_type != TokenType::End
            &&& forall|i: int| 0 <= i < ts.len() - 1 ==> well_classified(#[trigger] ts[i])
        },
{
    lemma_lex_tokens_props(input, c, Seq::empty());
    if let Ok((ts, e)) = lex(input, c) {
        let (body, e2) = lex_tokens(input, c, Seq::empty())->Ok_0;
        assert forall|i: int| 0 <= i < ts.len() - 1 implies (#[trigger] ts[i]).token_type != TokenType::End by {
            assert(ts[i] == body[i]);
        }
        assert forall|i: int| 0 <= i < ts.len() - 1 implies well_classified(#[trigger] ts[i]) by {
            assert(ts[i] == body[i]);
        }
    }
}

/// How a character is written inside a string literal.
pub open spec fn escape_char(c: char) -> Seq<char> {
    if c == '\n' {
        seq!['\\', 'n']
    } else if c == '\t' {
        seq!['\\', 't']
    } else if c == '\r' {
        seq!['\\', 'r']
    } else if c == '"' {
        seq!['\\', '"']
    } else if c == '\\' {
        seq!['\\', '\\']
    } else {
        seq![c]
    }
}

/// How a text is written inside a string literal.
pub open spec fn escape(s: Seq<char>) -> Seq<char>
    decreases s.len(),
{
    if s.len() == 0 {
        Seq::empty()
    } else {
        escape_char(s[0]) + escape(s.drop_first())
    }
}

/// A string literal, escaped and closed by a quote, reads back as its text: the
/// scanner gives a `String` token with exactly that text, and stops just after
/// the closing quote. A text holding `'\0'` is left out: the scanner stops there.
pub proof fn lemma_string_literal_roundtrip(input: Seq<char>, c: Cursor, acc: Seq<char>, s: Seq<char>)
    requires
        0 <= c.pos,
        c.pos + escape(s).len() + 1 <= input.len(),
        input.subrange(c.pos, c.pos + escape(s).len() + 1) == escape(s).push('"'),
        forall|i: int| 0 <= i < s.len() ==> s[i] != '\0',
    ensures
        scan_string(input, c, acc).0.token_type == TokenType::String,
        scan_string(input, c, acc).0.literal == acc + s,
        scan_string(input, c, acc).1.pos == c.pos + escape(s).len() + 1,
    decreases s.len(),
{
    let q = escape(s).push('"');
    assert(input[c.pos] == q[0]);
    if s.len() == 0 {
        assert(escape(s) =~= Seq::<char>::empty());
        assert(acc + s =~= acc);
    } else {
        let x = s[0];
        let rest = s.drop_first();
        let e = escape_char(x);
        assert(escape(s) == e + escape(rest));
        assert(q[0] == e[0]);
        if e.len() == 1 {
            assert(input[c.pos] == x);
            let c1 = step(input, c);
            assert(input.subrange(c1.pos, c1.pos + escape(rest).len() + 1) =~= escape(rest).push('"')) by {
                assert forall|k: int| 0 <= k < escape(rest).len() + 1 implies input.subrange(c1.pos, c1.pos
                    + escape(rest).len() + 1)[k] == escape(rest).push('"')[k] by {
                    assert(input.subrange(c.pos, c.pos + escape(s).len() + 1)[k + 1] == q[k + 1]);
                }
            }
            assert forall|i: int| 0 <= i < rest.len() implies rest[i] != '\0' by {
                assert(rest[i] == s[i + 1]);
            }
            lemma_string_literal_roundtrip(input, c1, acc.push(x), rest);
            assert(acc.push(x) + rest =~= acc + s);
        } else {
            assert(input[c.pos] == '\\');
            assert(input.subrange(c.pos, c.pos + escape(s).len() + 1)[1] == q[1]);
            assert(input[c.pos + 1] == e[1]);
            let c1 = step(input, c);
            let c2 = step(input, c1);
            assert(unescape(acc, char_at(input, c1.pos)) == acc.push(x));
            assert(input.subrange(c2.pos, c2.pos + escape(rest).len() + 1) =~= escape(rest).push('"')) by {
                assert forall|k: int| 0 <= k < escape(rest).len() + 1 implies input.subrange(c2.pos, c2.pos
                    + escape(rest).len() + 1)[k] == escape(rest).push('"')[k] by {
                    assert(input.subrange(c.pos, c.pos + escape(s).len() + 1)[k + 2] == q[k + 2]);
                }
            }
            assert forall|i: int| 0 <= i < rest.len() implies rest[i] != '\0' by {
                assert(rest[i] == s[i + 1]);
            }
            lemma_string_literal_roundtrip(input, c2, acc.push(x), rest);
            assert(acc.push(x) + rest =~= acc + s);
        }
    }
}

// ---------------------------------------------------------------------------------------------
// The lexer.

/// Turns the characters of a Leather file into tokens.
#[derive(Debug)]
pub struct Lexer {
    input: Vec<char>,
    tokens: Vec<Token>,
    pos: usize,
    line: usize,
    col: usize,
}

impl Lexer {
    /// The characters that the lexer reads.
    pub closed spec fn input(&self) -> Seq<char> {
        self.input@
    }

    /// The tokens produced by the last call of `generate`.
    pub closed spec fn tokens(&self) -> Seq<TokenView> {
        token_views(self.tokens@)
    }

    /// Where the lexer stands.
    pub closed spec fn cursor(&self) -> Cursor {
        Cursor { pos: self.pos as int, line: self.line as int, col: self.col as int }
    }

    /// The machine limits under which the lexer's counters cannot overflow.
    pub closed spec fn wf(&self) -> bool {
        &&& self.input@.len() + 8 < usize::MAX
        &&& self.pos + 4 < usize::MAX
        &&& self.line <= self.pos + 1
        &&& self.col <= self.pos + 1
    }

    /// A lexer with no input, at line 1, column 1.
    pub fn new() -> (l: Self)
        ensures
            l.wf(),
            l.input() == Seq::<char>::empty(),
            l.tokens() == Seq::<TokenView>::empty(),
            l.cursor() == (Cursor { pos: 0, line: 1, col: 1 }),
    {
        let l = Lexer { input: Vec::new(), tokens: Vec::new(), pos: 0, line: 1, col: 1 };
        assert(token_views(l.tokens@) =~= Seq::<TokenView>::empty());
        l
    }

    /// Gives the lexer the characters to read; the cursor stays where it was.
    pub fn load(&mut self, input: Vec<char>)
        requires
            old(self).wf(),
            input@.len() + 8 < usize::MAX,
        ensures
            final(self).wf(),
            final(self).input() == input@,
            final(self).tokens() == old(self).tokens(),
            final(self).cursor() == old(self).cursor(),
    {
        self.input = input;
    }

    /// The tokens produced by the last call of `generate`.
    pub fn get_tokens(self) -> (ts: Vec<Token>)
        ensures
            token_views(ts@) == self.tokens(),
    {
        self.tokens
    }

    fn advance(&mut self)
        requires
            old(self).wf(),
            old(self).pos <= old(self).input@.len(),
        ensures
            final(self).wf(),
            final(self).input@ == old(self).input@,
            final(self).tokens@ == old(self).tokens@,
            final(self).cursor() == step(old(self).input@, old(self).cursor()),
    {
        if self.current_char() == '\n' {
            self.line = self.line + 1;
            self.col = 1;
        } else {
            self.col = self.col + 1;
        }
        self.pos = self.pos + 1;
    }

    fn current_char(&self) -> (ch: char)
        ensures
            ch == char_at(self.input@, self.pos as int),
    {
        if self.pos < self.input.len() {
            self.input[self.pos]
        } else {
            '\0'
        }
    }

    fn next_char(&self) -> (ch: char)
        requires
            self.wf(),
        ensures
            ch == char_at(self.input@, self.pos + 1),
    {
        if self.pos + 1 < self.input.len() {
            self.input[self.pos + 1]
        } else {
            '\0'
        }
    }

    fn skip_comments(&mut self) -> (r: Result<(), LexError>)
        requires
            old(self).wf(),
            old(self).pos <= old(self).input@.len(),
        ensures
            final(self).wf(),
            final(self).input@ == old(self).input@,
            final(self).tokens@ == old(self).tokens@,
            final(self).pos <= final(self).input@.len(),
            match skip_comment(old(self).input@, old(self).cursor()) {
                Some(c) => r == Ok::<(), LexError>(()) && final(self).cursor() == c,
                None => r == Err::<(), LexError>(LexError::UnterminatedComment),
            },
    {
        let ghost input = self.input@;
        if self.current_char() == '#' {
            self.advance();
            if self.current_char() == '#' {
                self.advance();
                while self.pos < self.input.len()
                    invariant
                        self.wf(),
                        self.input@ == input,
                        input == old(self).input@,
                        self.tokens@ == old(self).tokens@,
                        self.pos <= input.len(),
                        skip_comment(input, old(self).cursor()) == skip_block_comment(
                            input,
                            self.cursor(),
                        ),
                    decreases input.len() - self.pos,
                {
                    if self.current_char() == '#' && self.next_char() == '#' {
                        self.advance();
                        self.advance();
                        return Ok(());
                    }
                    self.advance();
                }
                return Err(LexError::UnterminatedComment);
            }
            while self.pos < self.input.len() && self.current_char() != '\n'
                invariant
                    self.wf(),
                    self.input@ == input,
                    input == old(self).input@,
                    self.tokens@ == old(self).tokens@,
                    self.pos <= input.len(),
                    skip_comment(input, old(self).cursor()) == Some(
                        skip_line_comment(input, self.cursor()),
                    ),
                decreases input.len() - self.pos,
            {
                self.advance();
            }
        }
        Ok(())
    }

    /// Skips blanks and comments.
    ///
    /// Fails where a `##` comment is never closed; the cursor then stands somewhere
    /// inside the comment.
    pub fn skip_whitespace(&mut self) -> (r: Result<(), LexError>)
        requires
            old(self).wf(),
        ensures
            final(self).wf(),
            final(self).cursor().pos >= 0,
            final(self).input() == old(self).input(),
            final(self).tokens() == old(self).tokens(),
            match skip_blanks(old(self).input(), old(self).cursor()) {
                Some(c) => r == Ok::<(), LexError>(()) && final(self).cursor() == c,
                None => r == Err::<(), LexError>(LexError::UnterminatedComment),
            },
    {
        let ghost input = self.input@;
        loop
            invariant
                self.wf(),
                self.input@ == input,
                input == old(self).input@,
                self.tokens@ == old(self).tokens@,
                self.pos <= input.len() || self.cursor() == old(self).cursor(),
                skip_blanks(input, old(self).cursor()) == skip_blanks(input, self.cursor()),
            decreases input.len() - self.pos,
        {
            let ch = self.current_char();
            if ch == ' ' || ch == '\t' || ch == '\n' || ch == '\r' {
                self.advance();
            } else if ch == '#' {
                let ghost before = self.cursor();
                proof {
                    lemma_skip_comment_advances(input, before);
                }
                self.skip_comments()?;
            } else {
                return Ok(());
            }
        }
    }

    fn tokenize_string(&mut self) -> (t: Token)
        requires
            old(self).wf(),
            old(self).pos < old(self).input@.len(),
            char_at(old(self).input@, old(self).pos as int) == '"',
        ensures
            final(self).wf(),
            final(self).input@ == old(self).input@,
            final(self).tokens@ == old(self).tokens@,
            final(self).pos <= final(self).input@.len() + 1,
            (t@, final(self).cursor()) == next_token(old(self).input@, old(self).cursor()),
    {
        let ghost input = self.input@;
        self.advance();
        let mut value = String::new();
        while self.current_char() != '\0' && self.current_char() != '\n'
            invariant
                self.wf(),
                self.input@ == input,
                input == old(self).input@,
                self.tokens@ == old(self).tokens@,
                self.pos <= input.len() + 1,
                next_token(input, old(self).cursor()) == scan_string(input, self.cursor(), value@),
            decreases input.len() + 1 - self.pos,
        {
            let ch = self.current_char();
            if ch == '"' {
                self.advance();
                return Token {
                    token_type: TokenType::String,
                    literal: value,
                    line: self.line,
                    col: self.col,
                };
            } else if ch == '\\' {
                self.advance();
                let e = self.current_char();
                if e == 'n' {
                    push_char(&mut value, '\n');
                } else if e == 't' {
                    push_char(&mut value, '\t');
                } else if e == 'r' {
                    push_char(&mut value, '\r');
                } else if e == '"' {
                    push_char(&mut value, '"');
                } else if e == '\\' {
                    push_char(&mut value, '\\');
                }
                self.advance();
            } else {
                push_char(&mut value, ch);
                self.advance();
            }
        }
        Token {
            token_type: TokenType::Illegal,
            literal: "unterminated string".to_string(),
            line: self.line,
            col: self.col,
        }
    }

    fn tokenize_identifier(&mut self) -> (t: Token)
        requires
            old(self).wf(),
            old(self).pos < old(self).input@.len(),
            ident_char_at(old(self).input@, old(self).pos as int),
        ensures
            final(self).wf(),
            final(self).input@ == old(self).input@,
            final(self).tokens@ == old(self).tokens@,
            final(self).pos <= final(self).input@.len(),
            (t@, final(self).cursor()) == next_token(old(self).input@, old(self).cursor()),
    {
        let ghost input = self.input@;
        let start = self.pos;
        let mut word: Vec<char> = Vec::new();
        let mut identifier = String::new();
        while self.pos < self.input.len() && (is_alphabetic(self.current_char())
            || self.current_char() == '_')
            invariant
                self.wf(),
                self.input@ == input,
                input == old(self).input@,
                self.tokens@ == old(self).tokens@,
                start <= self.pos <= input.len(),
                word@ == input.subrange(start as int, self.pos as int),
                identifier@ == word@,
                scan_identifier(input, old(self).cursor()) == scan_identifier(input, self.cursor()),
            decreases input.len() - self.pos,
        {
            let ch = self.current_char();
            word.push(ch);
            push_char(&mut identifier, ch);
            self.advance();
            assert(word@ =~= input.subrange(start as int, self.pos as int));
        }
        let token_type = match keyword_type(&word) {
            Some(tt) => tt,
            None => TokenType::Identifier,
        };
        Token { token_type, literal: identifier, line: self.line, col: self.col }
    }

    fn tokenize_symbols(&mut self) -> (t: Token)
        requires
            old(self).wf(),
            old(self).pos < old(self).input@.len(),
        ensures
            final(self).wf(),
            final(self).input@ == old(self).input@,
            final(self).tokens@ == old(self).tokens@,
            final(self).pos <= final(self).input@.len(),
            t@ == (TokenView {
                token_type: symbol_type(char_at(old(self).input@, old(self).pos as int)),
                literal: seq![char_at(old(self).input@, old(self).pos as int)],
                line: old(self).line as int,
                col: old(self).col as int,
            }),
            final(self).cursor() == step(old(self).input@, old(self).cursor()),
    {
        let ch = self.current_char();
        let token_type = if ch == '[' {
            TokenType::LSquare
        } else if ch == ']' {
            TokenType::RSquare
        } else if ch == '=' {
            TokenType::Assign
        } else if ch == ',' {
            TokenType::Comma
        } else {
            TokenType::Illegal
        };
        let mut literal = String::new();
        push_char(&mut literal, ch);
        let token = Token { token_type, literal, line: self.line, col: self.col };
        self.advance();
        token
    }

    fn tokenize(&mut self) -> (t: Token)
        requires
            old(self).wf(),
            old(self).pos < old(self).input@.len(),
        ensures
            final(self).wf(),
            final(self).input@ == old(self).input@,
            final(self).tokens@ == old(self).tokens@,
            final(self).pos <= final(self).input@.len() + 1,
            (t@, final(self).cursor()) == next_token(old(self).input@, old(self).cursor()),
    {
        let ch = self.current_char();
        if is_alphabetic(ch) || ch == '_' {
            return self.tokenize_identifier();
        }
        if ch == '"' {
            return self.tokenize_string();
        }
        let t = self.tokenize_symbols();
        assert((t@, self.cursor()) == next_token(old(self).input@, old(self).cursor()));
        t
    }

    /// Reads the input from the cursor on, into a fresh token stream that ends with an `End` token.
    ///
    /// Fails where a `##` comment is never closed; the tokens read so far then stay.
    pub fn generate(&mut self) -> (r: Result<(), LexError>)
        requires
            old(self).wf(),
        ensures
            final(self).wf(),
            final(self).cursor().pos >= 0,
            final(self).input() == old(self).input(),
            match lex(old(self).input(), old(self).cursor()) {
                Ok((ts, c)) => r == Ok::<(), LexError>(()) && final(self).tokens() == ts
                    && final(self).cursor() == c,
                Err(e) => r == Err::<(), LexError>(e),
            },
    {
        let ghost input = self.input@;
        self.tokens.clear();
        assert(token_views(self.tokens@) =~= Seq::<TokenView>::empty());
        while self.pos < self.input.len()
            invariant
                self.wf(),
                self.input@ == input,
                input == old(self).input@,
                lex_tokens(input, old(self).cursor(), Seq::empty()) == lex_tokens(
                    input,
                    self.cursor(),
                    token_views(self.tokens@),
                ),
            ensures
                self.wf(),
                self.input@ == input,
                self.pos >= input.len(),
                lex_tokens(input, old(self).cursor(), Seq::empty()) == Ok::<(Seq<TokenView>, Cursor), LexError>((
                    token_views(self.tokens@),
                    self.cursor(),
                )),
            decreases input.len() + 1 - self.pos,
        {
            let ghost c0 = self.cursor();
            let ghost before = token_views(self.tokens@);
            self.skip_whitespace()?;
            if self.pos >= self.input.len() {
                break;
            }
            let ghost c1 = self.cursor();
            let token = self.tokenize();
            proof {
                lemma_skip_blanks_forward(input, c0);
                lemma_next_token_advances(input, c1);
            }
            self.tokens.push(token);
            assert(token_views(self.tokens@) =~= before.push(token@));
        }
        let ghost before = token_views(self.tokens@);
        self.tokens.push(
            Token { token_type: TokenType::End, literal: String::new(), line: self.line, col: self.col },
        );
        assert(token_views(self.tokens@) =~= before.push(
            TokenView { token_type: TokenType::End, literal: Seq::empty(), line: self.line as int, col: self.col as int },
        ));
        Ok(())
    }
}

/// The keyword that the word spells, if any.
fn keyword_type(word: &Vec<char>) -> (r: Option<TokenType>)
    ensures
        r == keyword_of(word@),
{
    let w = word.as_slice();
    if chars_eq(w, &['p', 'r', 'o', 'j', 'e', 'c', 't']) {
        Some(TokenType::Project)
    } else if chars_eq(w, &['l', 'a', 'y', 'o', 'u', 't']) {
        Some(TokenType::Layout)
    } else if chars_eq(w, &['d', 'e', 'p', 'e', 'n', 'd', 'e', 'c', 'i', 'e', 's']) {
        Some(TokenType::Dependecies)
    } else if chars_eq(w, &['d', 'e', 'p', 'e', 'n', 'd', 'e', 'n', 'c', 'i', 'e', 's']) {
        Some(TokenType::Dependecies)
    } else if chars_eq(w, &['l', 'i', 'n', 'k']) {
        Some(TokenType::Link)
    } else if chars_eq(w, &['c', 'o', 'm', 'm', 'a', 'n', 'd', 's']) {
        Some(TokenType::Commands)
    } else if chars_eq(w, &['e', 'x', 'e', 'c', 'u', 't', 'a', 'b', 'l', 'e']) {
        Some(TokenType::Executable)
    } else if chars_eq(w, &['s', 't', 'a', 't', 'i', 'c']) {
        Some(TokenType::Static)
    } else if chars_eq(w, &['o', 'b', 'j', 'e', 'c', 't']) {
        Some(TokenType::Object)
    } else if chars_eq(w, &['v', 'e', 'r', 's', 'i', 'o', 'n']) {
        Some(TokenType::Version)
    } else if chars_eq(w, &['e', 'n', 't', 'r', 'y']) {
        Some(TokenType::Entry)
    } else if chars_eq(w, &['m', 'o', 'd', 'e']) {
        Some(TokenType::Mode)
    } else if chars_eq(w, &['n', 'a', 'm', 'e']) {
        Some(TokenType::Name)
    } else if chars_eq(w, &['t', 'a', 'r', 'g', 'e', 't']) {
        Some(TokenType::Target)
    } else if chars_eq(w, &['s', 'c', 'r', 'i', 'p', 't']) {
        Some(TokenType::Script)
    } else if chars_eq(w, &['f', 'r', 'e', 'e', 's', 't', 'a', 'n', 'd', 'i', 'n', 'g']) {
        Some(TokenType::Freestanding)
    } else if chars_eq(w, &['t', 'r', 'u', 'e']) {
        Some(TokenType::True)
    } else {
        None
    }
}

} // verus!
