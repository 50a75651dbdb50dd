use lib::leather::lexer::{Lexer, Token, TokenType};
use lib::leather::parser::{Config, Expression, ParseError, Parser};

fn tokens(src: &str) -> Vec<Token> {
    let mut lexer = Lexer::new();
    lexer.load(src.chars().collect());
    lexer.generate().unwrap();
    lexer.get_tokens()
}

fn parse(src: &str) -> Result<Config, ParseError> {
    let mut parser = Parser::new();
    parser.load(tokens(src));
    parser.parse()
}

fn text(e: &Expression) -> String {
    match e {
        Expression::Identifier(t) | Expression::Keyword(t) | Expression::StringLit(t) => t.literal.clone(),
        Expression::Array(_) => panic!("array"),
    }
}

#[test]
fn sections_and_variables() {
    let cfg = parse("[project]\nname = \"demo\"\nmode = executable\n[layout]\nsrc = \"code\"\n").unwrap();
    assert_eq!(cfg.sections.len(), 2);
    assert_eq!(cfg.sections[0].head.head.token_type, TokenType::Project);
    assert_eq!(cfg.sections[0].contents.len(), 2);
    assert!(matches!(cfg.sections[0].contents[0].name, Expression::Keyword(_)));
    assert!(matches!(cfg.sections[0].contents[0].value, Expression::StringLit(_)));
    assert_eq!(text(&cfg.sections[0].contents[1].value), "executable");
    assert!(matches!(cfg.sections[1].contents[0].name, Expression::Identifier(_)));
    assert_eq!(text(&cfg.sections[1].contents[0].value), "code");
}

#[test]
fn empty_file_has_no_sections() {
    let cfg = parse("").unwrap();
    assert!(cfg.sections.is_empty());
}

#[test]
fn arrays_keep_every_element() {
    let cfg = parse("[link]\nc = [\"pthread\", \"SDL2\"]\nd = [\"m\"]\ne = []\n").unwrap();
    let vars = &cfg.sections[0].contents;
    match &vars[0].value {
        Expression::Array(a) => {
            let items: Vec<String> = a.expressions.iter().map(text).collect();
            assert_eq!(items, vec!["pthread", "SDL2"]);
        }
        _ => panic!("expected an array"),
    }
    match &vars[1].value {
        Expression::Array(a) => assert_eq!(a.expressions.len(), 1),
        _ => panic!("expected an array"),
    }
    match &vars[2].value {
        Expression::Array(a) => assert!(a.expressions.is_empty()),
        _ => panic!("expected an array"),
    }
}

#[test]
fn nested_arrays_parse() {
    let cfg = parse("[link]\nc = [[\"a\"], b]\n").unwrap();
    match &cfg.sections[0].contents[0].value {
        Expression::Array(a) => {
            assert_eq!(a.expressions.len(), 2);
            assert!(matches!(a.expressions[0], Expression::Array(_)));
        }
        _ => panic!("expected an array"),
    }
}

#[test]
fn project_keys_that_are_keywords_parse() {
    let cfg = parse("[project]\ntarget = \"x86_64-unknown-none\"\nfreestanding = true\nscript = \"k.ld\"\n").unwrap();
    let vars = &cfg.sections[0].contents;
    assert_eq!(vars.len(), 3);
    assert_eq!(text(&vars[1].value), "true");
}

#[test]
fn missing_assign_is_reported_with_position() {
    let err = parse("[project]\nname \"x\"").unwrap_err();
    assert_eq!(
        err,
        ParseError::Expected { expected: TokenType::Assign, got: TokenType::String, line: 2, col: 9 }
    );
}

#[test]
fn unclosed_array_is_reported() {
    let err = parse("[link]\nc = [\"a\"").unwrap_err();
    assert!(matches!(err, ParseError::Expected { expected: TokenType::RSquare, got: TokenType::End, .. }));
}

#[test]
fn invalid_expression() {
    assert_eq!(parse("[project]\nname = =").unwrap_err(), ParseError::InvalidExpression);
}

#[test]
fn invalid_section_header() {
    assert_eq!(parse("[name]\n").unwrap_err(), ParseError::InvalidSectionHeader);
}

#[test]
fn unclosed_head_reports_the_bracket_first() {
    let err = parse("[name").unwrap_err();
    assert!(matches!(err, ParseError::Expected { expected: TokenType::RSquare, got: TokenType::End, .. }));
}

#[test]
fn text_before_any_section_is_unexpected() {
    let err = parse("name = \"x\"").unwrap_err();
    assert_eq!(err, ParseError::UnexpectedToken { got: TokenType::Name, line: 1, col: 5 });
}

#[test]
fn tokens_without_end_are_unexpected() {
    let mut parser = Parser::new();
    parser.load(Vec::new());
    assert_eq!(
        parser.parse().unwrap_err(),
        ParseError::UnexpectedToken { got: TokenType::Illegal, line: 0, col: 0 }
    );
}

#[test]
fn commands_section_parses() {
    let cfg = parse("[commands]\nqemu = \"qemu-system-x86_64 -kernel build/myos.elf\"\n").unwrap();
    assert_eq!(cfg.sections[0].head.head.token_type, TokenType::Commands);
}
