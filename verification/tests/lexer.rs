use lib::leather::lexer::{LexError, Lexer, Token, TokenType};

fn lex(src: &str) -> Result<Vec<Token>, LexError> {
    let mut lexer = Lexer::new();
    lexer.load(src.chars().collect());
    lexer.generate()?;
    Ok(lexer.get_tokens())
}

fn types(tokens: &[Token]) -> Vec<TokenType> {
    tokens.iter().map(|t| t.token_type).collect()
}

#[test]
fn token_new_is_illegal_and_empty() {
    let t = Token::new();
    assert_eq!(t.token_type, TokenType::Illegal);
    assert_eq!(t.literal, "");
    assert_eq!((t.line, t.col), (0, 0));
}

#[test]
fn empty_input_gives_only_end() {
    let tokens = lex("").unwrap();
    assert_eq!(types(&tokens), vec![TokenType::End]);
    assert_eq!((tokens[0].line, tokens[0].col), (1, 1));
}

#[test]
fn section_head_and_variable() {
    let tokens = lex("[project]\nname = \"demo\"\n").unwrap();
    assert_eq!(
        types(&tokens),
        vec![
            TokenType::LSquare,
            TokenType::Project,
            TokenType::RSquare,
            TokenType::Name,
            TokenType::Assign,
            TokenType::String,
            TokenType::End
        ]
    );
    assert_eq!(tokens[1].literal, "project");
    assert_eq!(tokens[5].literal, "demo");
}

#[test]
fn positions_are_recorded_after_words_and_before_symbols() {
    let tokens = lex("[ab]\nx").unwrap();
    // `[` at line 1 col 1 (recorded before it is consumed)
    assert_eq!((tokens[0].line, tokens[0].col), (1, 1));
    // `ab` ends at col 4
    assert_eq!((tokens[1].line, tokens[1].col), (1, 4));
    assert_eq!((tokens[2].line, tokens[2].col), (1, 4));
    // `x` on line 2 ends at col 2
    assert_eq!((tokens[3].line, tokens[3].col), (2, 2));
    assert_eq!((tokens[4].line, tokens[4].col), (2, 2));
}

#[test]
fn keywords_and_identifiers() {
    let tokens = lex("layout dependecies dependencies link commands executable static object version entry mode name target script freestanding true obj src_dir").unwrap();
    assert_eq!(
        types(&tokens),
        vec![
            TokenType::Layout,
            TokenType::Dependecies,
            TokenType::Dependecies,
            TokenType::Link,
            TokenType::Commands,
            TokenType::Executable,
            TokenType::Static,
            TokenType::Object,
            TokenType::Version,
            TokenType::Entry,
            TokenType::Mode,
            TokenType::Name,
            TokenType::Target,
            TokenType::Script,
            TokenType::Freestanding,
            TokenType::True,
            TokenType::Identifier,
            TokenType::Identifier,
            TokenType::End
        ]
    );
    assert_eq!(tokens[16].literal, "obj");
    assert_eq!(tokens[17].literal, "src_dir");
}

#[test]
fn string_escapes() {
    let tokens = lex(r#""a\nb\t\"q\"\\z\x""#).unwrap();
    assert_eq!(tokens[0].token_type, TokenType::String);
    assert_eq!(tokens[0].literal, "a\nb\t\"q\"\\z");
}

#[test]
fn string_literal_reads_back_escaped_text() {
    let text = "tab\there \"quoted\" back\\slash\nnew line\r";
    let mut escaped = String::from("\"");
    for c in text.chars() {
        match c {
            '\n' => escaped.push_str("\\n"),
            '\t' => escaped.push_str("\\t"),
            '\r' => escaped.push_str("\\r"),
            '"' => escaped.push_str("\\\""),
            '\\' => escaped.push_str("\\\\"),
            c => escaped.push(c),
        }
    }
    escaped.push('"');
    let tokens = lex(&escaped).unwrap();
    assert_eq!(tokens[0].token_type, TokenType::String);
    assert_eq!(tokens[0].literal, text);
    assert_eq!(tokens.len(), 2);
}

#[test]
fn unterminated_string_at_newline() {
    let tokens = lex("\"abc\nname").unwrap();
    assert_eq!(tokens[0].token_type, TokenType::Illegal);
    assert_eq!(tokens[0].literal, "unterminated string");
    assert_eq!(tokens[1].token_type, TokenType::Name);
}

#[test]
fn unterminated_string_at_end() {
    let tokens = lex("\"abc").unwrap();
    assert_eq!(types(&tokens), vec![TokenType::Illegal, TokenType::End]);
}

#[test]
fn symbols_and_illegal_characters() {
    let tokens = lex("[ ] = , 8 .").unwrap();
    assert_eq!(
        types(&tokens),
        vec![
            TokenType::LSquare,
            TokenType::RSquare,
            TokenType::Assign,
            TokenType::Comma,
            TokenType::Illegal,
            TokenType::Illegal,
            TokenType::End
        ]
    );
    assert_eq!(tokens[4].literal, "8");
}

#[test]
fn comments_are_skipped() {
    let tokens = lex("# a comment\nname ## block\n comment ## = # tail").unwrap();
    assert_eq!(types(&tokens), vec![TokenType::Name, TokenType::Assign, TokenType::End]);
}

#[test]
fn unterminated_block_comment_is_an_error() {
    assert_eq!(lex("name ## never closed").unwrap_err(), LexError::UnterminatedComment);
    assert_eq!(lex("###").unwrap_err(), LexError::UnterminatedComment);
}

#[test]
fn skip_whitespace_stops_at_a_token() {
    let mut lexer = Lexer::new();
    lexer.load("  \t# note\n  x".chars().collect());
    lexer.skip_whitespace().unwrap();
    lexer.generate().unwrap();
    let tokens = lexer.get_tokens();
    assert_eq!(types(&tokens), vec![TokenType::Identifier, TokenType::End]);
    assert_eq!((tokens[0].line, tokens[0].col), (2, 4));
}

#[test]
fn skip_whitespace_reports_open_block_comment() {
    let mut lexer = Lexer::new();
    lexer.load("## open".chars().collect());
    assert_eq!(lexer.skip_whitespace(), Err(LexError::UnterminatedComment));
}

#[test]
fn only_the_last_token_is_end() {
    let tokens = lex("[link]\nc = [\"a\", \"b\"]\n# done\n").unwrap();
    assert_eq!(tokens.last().unwrap().token_type, TokenType::End);
    assert!(tokens[..tokens.len() - 1].iter().all(|t| t.token_type != TokenType::End));
}

#[test]
fn unicode_letters_form_identifiers() {
    let tokens = lex("名前 = \"x\"").unwrap();
    assert_eq!(tokens[0].token_type, TokenType::Identifier);
    assert_eq!(tokens[0].literal, "名前");
}
