use lib::graph::GraphError;
use lib::leather::analyzer::SemanticError;
use lib::leather::lexer::{LexError, TokenType};
use lib::leather::parser::ParseError;
use lib::load_config;
use lib::project::WorkspaceError;

fn s(x: &str) -> String {
    x.to_string()
}

#[test]
fn parse_errors_read_as_before() {
    let e = ParseError::Expected { expected: TokenType::Assign, got: TokenType::Identifier, line: 3, col: 12 };
    assert_eq!(e.message(), "error: expected Assign but got Identifier at line 3 col 12");
    let e = ParseError::UnexpectedToken { got: TokenType::RSquare, line: 10, col: 0 };
    assert_eq!(e.message(), "error: unexpected token RSquare at line 10 col 0");
    assert_eq!(ParseError::InvalidExpression.message(), "Invalid expression");
    assert_eq!(ParseError::InvalidSectionHeader.message(), "Invalid section header");
}

#[test]
fn other_errors_read_as_before() {
    assert_eq!(LexError::UnterminatedComment.message(), "error: unterminated multiline comment");
    assert_eq!(SemanticError::InvalidMode(s("fast")).message(), "Invalid mode: fast");
    assert_eq!(SemanticError::MissingProject.message(), "error: missing [project] section");
    assert_eq!(SemanticError::MissingName.message(), "error: missing required field 'name'");
    let e = GraphError::DuplicateModule { name: s("io"), file: s("src/b.unn") };
    assert_eq!(e.message(), "error: duplicate module name 'io' found in src/b.unn");
    assert_eq!(
        GraphError::CircularImport { file: s("a.unn") }.message(),
        "error: circular import detected involving a.unn"
    );
    assert_eq!(WorkspaceError::MissingEntryFile(s("src/main.unn")).message(), "error: failed to get entry file src/main.unn");
    assert_eq!(WorkspaceError::NoEntry.message(), "error: mode is executable but entry point doesnt exist");
}

#[test]
fn configuration_errors_carry_their_texts() {
    let e = load_config("[project]\nname = \"x\"\nversion = \"1\"\n".chars().collect()).unwrap_err();
    assert_eq!(e.message(), "error: missing required field 'mode'");
    let e = load_config("[project]\nname x\n".chars().collect()).unwrap_err();
    assert_eq!(e.message(), "error: expected Assign but got Identifier at line 2 col 7");
}
