//! The texts that the errors of the library are reported with.
use vstd::prelude::*;

use crate::graph::{GraphError, GraphErrorView};
use crate::leather::analyzer::{SemanticError, SemanticErrorView};
use crate::leather::lexer::{LexError, TokenType};
use crate::leather::parser::ParseError;
use crate::project::{WorkspaceError, WorkspaceErrorView};
use crate::text::{push_char, push_str, push_string};
use crate::{ConfigError, ConfigErrorView};

verus! {

/// The name of a token type, as `{:?}` writes it.
pub open spec fn token_type_name(tt: TokenType) -> Seq<char> {
    match tt {
        TokenType::Identifier => "Identifier"@,
        TokenType::String => "String"@,
        TokenType::Project => "Project"@,
        TokenType::Layout => "Layout"@,
        TokenType::Dependecies => "Dependecies"@,
        TokenType::Link => "Link"@,
        TokenType::Commands => "Commands"@,
        TokenType::Executable => "Executable"@,
        TokenType::Static => "Static"@,
        TokenType::Object => "Object"@,
        TokenType::Version => "Version"@,
        TokenType::Entry => "Entry"@,
        TokenType::Mode => "Mode"@,
        TokenType::Name => "Name"@,
        TokenType::Target => "Target"@,
        TokenType::Script => "Script"@,
        TokenType::Freestanding => "Freestanding"@,
        TokenType::True => "True"@,
        TokenType::Illegal => "Illegal"@,
        TokenType::Assign => "Assign"@,
        TokenType::Comma => "Comma"@,
        TokenType::LSquare => "LSquare"@,
        TokenType::RSquare => "RSquare"@,
        TokenType::End => "End"@,
    }
}

fn token_type_text(tt: TokenType) -> (s: &'static str)
    ensures
        s@ == token_type_name(tt),
{
    match tt {
        TokenType::Identifier => "Identifier",
        TokenType::String => "String",
        TokenType::Project => "Project",
        TokenType::Layout => "Layout",
        TokenType::Dependecies => "Dependecies",
        TokenType::Link => "Link",
        TokenType::Commands => "Commands",
        TokenType::Executable => "Executable",
        TokenType::Static => "Static",
        TokenType::Object => "Object",
        TokenType::Version => "Version",
        TokenType::Entry => "Entry",
        TokenType::Mode => "Mode",
        TokenType::Name => "Name",
        TokenType::Target => "Target",
        TokenType::Script => "Script",
        TokenType::Freestanding => "Freestanding",
        TokenType::True => "True",
        TokenType::Illegal => "Illegal",
        TokenType::Assign => "Assign",
        TokenType::Comma => "Comma",
        TokenType::LSquare => "LSquare",
        TokenType::RSquare => "RSquare",
        TokenType::End => "End",
    }
}

/// The digit of a value below 10.
pub open spec fn decimal_digit(d: nat) -> char {
    ((48 + d) as u8) as char
}

/// A number in decimal, without leading zeros (`0` for zero), as `{}` writes it.
pub open spec fn decimal_text(n: nat) -> Seq<char>
    decreases n,
{
    if n < 10 {
        seq![decimal_digit(n)]
    } else {
        decimal_text(n / 10).push(decimal_digit(n % 10))
    }
}

/// Appends a number in decimal.
fn push_decimal(s: &mut String, v: usize)
    ensures
        final(s)@ == old(s)@ + decimal_text(v as nat),
{
    let mut digits: Vec<char> = Vec::new();
    let mut x: usize = v;
    assert(digits@.reverse() =~= Seq::<char>::empty());
    assert(decimal_text(v as nat) =~= decimal_text(x as nat) + digits@.reverse());
    while x >= 10
        invariant
            decimal_text(v as nat) == decimal_text(x as nat) + digits@.reverse(),
        decreases x,
    {
        let d = x % 10;
        let c = ((48 + d) as u8) as char;
        assert(c == decimal_digit((x % 10) as nat));
        let ghost before = digits@;
        digits.push(c);
        assert(digits@.reverse() =~= seq![c] + before.reverse());
        assert(decimal_text(x as nat) == decimal_text((x / 10) as nat).push(c));
        assert(decimal_text((x / 10) as nat).push(c) + before.reverse() =~= decimal_text((x / 10) as nat) + (seq![c]
            + before.reverse()));
        x = x / 10;
    }
    let c = ((48 + x) as u8) as char;
    assert(c == decimal_digit(x as nat));
    let ghost before = digits@;
    digits.push(c);
    assert(digits@.reverse() =~= seq![c] + before.reverse());
    assert(decimal_text(v as nat) =~= digits@.reverse());
    let ghost start = s@;
    let mut i: usize = digits.len();
    while i > 0
        invariant
            i <= digits@.len(),
            s@ == start + digits@.reverse().take(digits@.len() - i),
        decreases i,
    {
        i = i - 1;
        push_char(s, digits[i]);
        assert(digits@.reverse()[digits@.len() - i - 1] == digits@[i as int]);
        assert(s@ =~= start + digits@.reverse().take(digits@.len() - i));
    }
    assert(digits@.reverse().take(digits@.len() as int) =~= digits@.reverse());
}

/// The text of a lexing error.
pub open spec fn lex_error_text(e: LexError) -> Seq<char> {
    match e {
        LexError::UnterminatedComment => "error: unterminated multiline comment"@,
    }
}

/// The text of a parse error.
pub open spec fn parse_error_text(e: ParseError) -> Seq<char> {
    match e {
        ParseError::Expected { expected, got, line, col } => "error: expected "@ + token_type_name(expected)
            + " but got "@ + token_type_name(got) + " at line "@ + decimal_text(line as nat) + " col "@
            + decimal_text(col as nat),
        ParseError::InvalidExpression => "Invalid expression"@,
        ParseError::InvalidSectionHeader => "Invalid section header"@,
        ParseError::UnexpectedToken { got, line, col } => "error: unexpected token "@ + token_type_name(got)
            + " at line "@ + decimal_text(line as nat) + " col "@ + decimal_text(col as nat),
    }
}

/// The text of an error in the meaning of a configuration.
pub open spec fn semantic_error_text(e: SemanticErrorView) -> Seq<char> {
    match e {
        SemanticErrorView::ExpectedString => "Expected a string value"@,
        SemanticErrorView::ExpectedArray => "Expected an array literal"@,
        SemanticErrorView::ExpectedKeywordKey => "Expected keyword as key"@,
        SemanticErrorView::InvalidMode(v) => "Invalid mode: "@ + v,
        SemanticErrorView::InvalidFreestanding(v) => "Invalid freestanding flag: "@ + v,
        SemanticErrorView::UnknownProjectKey => "Unknown key in [project]"@,
        SemanticErrorView::ExpectedIdentifierKey => "Expected identifier as the key in the layout section"@,
        SemanticErrorView::UnknownLayoutKey => "Unknown key in [layout]"@,
        SemanticErrorView::MissingName => "error: missing required field 'name'"@,
        SemanticErrorView::MissingVersion => "error: missing required field 'version'"@,
        SemanticErrorView::MissingMode => "error: missing required field 'mode'"@,
        SemanticErrorView::UnknownSection => "Unknown section"@,
        SemanticErrorView::MissingProject => "error: missing [project] section"@,
    }
}

/// The text of an error in reading a configuration.
pub open spec fn config_error_text(e: ConfigErrorView) -> Seq<char> {
    match e {
        ConfigErrorView::Lex(x) => lex_error_text(x),
        ConfigErrorView::Parse(x) => parse_error_text(x),
        ConfigErrorView::Semantic(x) => semantic_error_text(x),
    }
}

/// The text of an error in building the module graph.
pub open spec fn graph_error_text(e: GraphErrorView) -> Seq<char> {
    match e {
        GraphErrorView::DuplicateModule { name, file } => "error: duplicate module name '"@ + name + "' found in "@
            + file,
        GraphErrorView::CircularImport { file } => "error: circular import detected involving "@ + file,
    }
}

/// The text of an error in setting up the workspace.
pub open spec fn workspace_error_text(e: WorkspaceErrorView) -> Seq<char> {
    match e {
        WorkspaceErrorView::SourceFiles(m) => "error: failed to get source files "@ + m,
        WorkspaceErrorView::MissingEntryFile(p) => "error: failed to get entry file "@ + p,
        WorkspaceErrorView::NoEntry => "error: mode is executable but entry point doesnt exist"@,
    }
}

impl LexError {
    /// The text this error is reported with.
    pub fn message(&self) -> (m: String)
        ensures
            m@ == lex_error_text(*self),
    {
        let mut m = String::new();
        push_str(&mut m, "error: unterminated multiline comment");
        m
    }
}

impl ParseError {
    /// The text this error is reported with.
    pub fn message(&self) -> (m: String)
        ensures
            m@ == parse_error_text(*self),
    {
        let mut m = String::new();
        match *self {
            ParseError::Expected { expected, got, line, col } => {
                push_str(&mut m, "error: expected ");
                push_str(&mut m, token_type_text(expected));
                push_str(&mut m, " but got ");
                push_str(&mut m, token_type_text(got));
                push_str(&mut m, " at line ");
                push_decimal(&mut m, line);
                push_str(&mut m, " col ");
                push_decimal(&mut m, col);
            },
            ParseError::InvalidExpression => push_str(&mut m, "Invalid expression"),
            ParseError::InvalidSectionHeader => push_str(&mut m, "Invalid section header"),
            ParseError::UnexpectedToken { got, line, col } => {
                push_str(&mut m, "error: unexpected token ");
                push_str(&mut m, token_type_text(got));
                push_str(&mut m, " at line ");
                push_decimal(&mut m, line);
                push_str(&mut m, " col ");
                push_decimal(&mut m, col);
            },
        }
        m
    }
}

impl SemanticError {
    /// The text this error is reported with.
    pub fn message(&self) -> (m: String)
        ensures
            m@ == semantic_error_text(self@),
    {
        let mut m = String::new();
        match self {
            SemanticError::ExpectedString => push_str(&mut m, "Expected a string value"),
            SemanticError::ExpectedArray => push_str(&mut m, "Expected an array literal"),
            SemanticError::ExpectedKeywordKey => push_str(&mut m, "Expected keyword as key"),
            SemanticError::InvalidMode(v) => {
                push_str(&mut m, "Invalid mode: ");
                push_string(&mut m, v);
            },
            SemanticError::InvalidFreestanding(v) => {
                push_str(&mut m, "Invalid freestanding flag: ");
                push_string(&mut m, v);
            },
            SemanticError::UnknownProjectKey => push_str(&mut m, "Unknown key in [project]"),
            SemanticError::ExpectedIdentifierKey => push_str(&mut m, "Expected identifier as the key in the layout section"),
            SemanticError::UnknownLayoutKey => push_str(&mut m, "Unknown key in [layout]"),
            SemanticError::MissingName => push_str(&mut m, "error: missing required field 'name'"),
            SemanticError::MissingVersion => push_str(&mut m, "error: missing required field 'version'"),
            SemanticError::MissingMode => push_str(&mut m, "error: missing required field 'mode'"),
            SemanticError::UnknownSection => push_str(&mut m, "Unknown section"),
            SemanticError::MissingProject => push_str(&mut m, "error: missing [project] section"),
        }
        m
    }
}

impl ConfigError {
    /// The text this error is reported with.
    pub fn message(&self) -> (m: String)
        ensures
            m@ == config_error_text(self@),
    {
        match self {
            ConfigError::Lex(e) => e.message(),
            ConfigError::Parse(e) => e.message(),
            ConfigError::Semantic(e) => e.message(),
        }
    }
}

impl GraphError {
    /// The text this error is reported with.
    pub fn message(&self) -> (m: String)
        ensures
            m@ == graph_error_text(self@),
    {
        let mut m = String::new();
        match self {
            GraphError::DuplicateModule { name, file } => {
                push_str(&mut m, "error: duplicate module name '");
                push_string(&mut m, name);
                push_str(&mut m, "' found in ");
                push_string(&mut m, file);
            },
            GraphError::CircularImport { file } => {
                push_str(&mut m, "error: circular import detected involving ");
                push_string(&mut m, file);
            },
        }
        m
    }
}

impl WorkspaceError {
    /// The text this error is reported with.
    pub fn message(&self) -> (m: String)
        ensures
            m@ == workspace_error_text(self@),
    {
        let mut m = String::new();
        match self {
            WorkspaceError::SourceFiles(e) => {
                push_str(&mut m, "error: failed to get source files ");
                push_string(&mut m, e);
            },
            WorkspaceError::MissingEntryFile(p) => {
                push_str(&mut m, "error: failed to get entry file ");
                push_string(&mut m, p);
            },
            WorkspaceError::NoEntry => push_str(&mut m, "error: mode is executable but entry point doesnt exist"),
        }
        m
    }
}

} // verus!
