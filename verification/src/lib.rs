//! `belt`, the build tool of the Unnameable language: its configuration format
//! (Leather), its module graph, its lock file and the decisions of a build.
pub mod builder;
pub mod config;
pub mod graph;
pub mod incremental;
pub mod leather;
pub mod lock;
pub mod messages;
pub mod new_project;
pub mod project;
pub mod resolver;
pub mod scaffold;
pub mod text;
pub mod topo;

use vstd::prelude::*;

use crate::config::{Config, ConfigView};
use crate::leather::analyzer::{SemanticError, SemanticErrorView, Semantics, config_meaning};
use crate::leather::lexer::{Cursor, LexError, Lexer, TokenView, lex};
use crate::leather::parser::{ParseError, Parser, parse_file};

verus! {

/// Why a configuration text could not be read.
#[derive(Debug)]
pub enum ConfigError {
    Lex(LexError),
    Parse(ParseError),
    Semantic(SemanticError),
}

/// The mathematical content of a [`ConfigError`].
pub enum ConfigErrorView {
    Lex(LexError),
    Parse(ParseError),
    Semantic(SemanticErrorView),
}

impl View for ConfigError {
    type V = ConfigErrorView;

    open spec fn view(&self) -> ConfigErrorView {
        match self {
            ConfigError::Lex(e) => ConfigErrorView::Lex(*e),
            ConfigError::Parse(e) => ConfigErrorView::Parse(*e),
            ConfigError::Semantic(e) => ConfigErrorView::Semantic(e@),
        }
    }
}

/// What a configuration text means: its tokens from line 1, column 1, the
/// sections they form, and the configuration those sections give.
pub open spec fn config_of_text(input: Seq<char>) -> Result<ConfigView, ConfigErrorView> {
    match lex(input, Cursor { pos: 0, line: 1, col: 1 }) {
        Err(e) => Err(ConfigErrorView::Lex(e)),
        Ok((tokens, _)) => match parse_file(tokens, 0) {
            Err(e) => Err(ConfigErrorView::Parse(e)),
            Ok((sections, _)) => match config_meaning(sections) {
                Err(e) => Err(ConfigErrorView::Semantic(e)),
                Ok(c) => Ok(c),
            },
        },
    }
}

/// Reads a `belt.lethr` text into a configuration.
pub fn load_config(input: Vec<char>) -> (r: Result<Config, ConfigError>)
    requires
        input@.len() + 32 < usize::MAX,
    ensures
        match config_of_text(input@) {
            Ok(c) => r matches Ok(x) && x@ == c,
            Err(e) => r matches Err(x) && x@ == e,
        },
{
    let ghost text = input@;
    let mut lexer = Lexer::new();
    lexer.load(input);
    match lexer.generate() {
        Ok(()) => {},
        Err(e) => return Err(ConfigError::Lex(e)),
    }
    let ghost tokens = lexer.tokens();
    let tokens = lexer.get_tokens();
    proof {
        crate::leather::lexer::lemma_lex_token_count(text, Cursor { pos: 0, line: 1, col: 1 });
        assert(crate::leather::lexer::token_views(tokens@).len() == tokens@.len());
    }
    let mut parser = Parser::new();
    parser.load(tokens);
    let ast = match parser.parse() {
        Ok(a) => a,
        Err(e) => return Err(ConfigError::Parse(e)),
    };
    let analyzer = Semantics::new(ast);
    match analyzer.analyze() {
        Ok(c) => Ok(c),
        Err(e) => Err(ConfigError::Semantic(e)),
    }
}

} // verus!
