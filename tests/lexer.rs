use edt_core::lexer::{char_to_token, tokenize, LexError, Token, TokenKind};

fn kinds(tokens: &[Token]) -> Vec<TokenKind> {
    tokens.iter().map(|t| t.kind).collect()
}

fn values(tokens: &[Token]) -> Vec<String> {
    tokens.iter().map(|t| t.value.clone()).collect()
}

#[test]
fn repeated_tokenization_is_identical() {
    let src = "let x = \"a\nb\" ;\nlet y = x + 2.5 * 3 ;";
    let first = tokenize(src).unwrap();
    let second = tokenize(src).unwrap();
    assert_eq!(first, second);
    let bad = "let q = 1.2.3 ;";
    assert_eq!(tokenize(bad).unwrap_err(), tokenize(bad).unwrap_err());
}

#[test]
fn last_token_is_end_of_input() {
    for src in ["", "let a = 1 ;", "abc", "42", "\"s\"", "x\n\n"] {
        let tokens = tokenize(src).unwrap();
        assert_eq!(tokens.last().unwrap().kind, TokenKind::EOF);
        assert_eq!(tokens.last().unwrap().value, "");
        let eofs = tokens.iter().filter(|t| t.kind == TokenKind::EOF).count();
        assert_eq!(eofs, 1);
    }
}

#[test]
fn pending_word_is_flushed_at_end_of_input() {
    let tokens = tokenize("abc").unwrap();
    assert_eq!(kinds(&tokens), vec![TokenKind::Identifier, TokenKind::EOF]);
    assert_eq!(tokens[0].value, "abc");
    assert_eq!(tokens[0].line, 1);
    assert_eq!(tokens[1].line, 1);
}

#[test]
fn pending_number_is_flushed_at_end_of_input() {
    let tokens = tokenize("42").unwrap();
    assert_eq!(kinds(&tokens), vec![TokenKind::Int, TokenKind::EOF]);
    assert_eq!(tokens[0].value, "42");
    let tokens = tokenize("4.5").unwrap();
    assert_eq!(kinds(&tokens), vec![TokenKind::Float, TokenKind::EOF]);
    assert_eq!(tokens[0].value, "4.5");
}

#[test]
fn empty_source_is_only_end_of_input() {
    let tokens = tokenize("").unwrap();
    assert_eq!(tokens.len(), 1);
    assert_eq!(tokens[0].kind, TokenKind::EOF);
    assert_eq!(tokens[0].line, 1);
}

#[test]
fn boundary_character_is_not_consumed() {
    let tokens = tokenize("ab+1").unwrap();
    assert_eq!(
        kinds(&tokens),
        vec![TokenKind::Identifier, TokenKind::Plus, TokenKind::Int, TokenKind::EOF]
    );
    assert_eq!(values(&tokens), vec!["ab", "+", "1", ""]);
}

#[test]
fn number_boundary_character_is_not_consumed() {
    let tokens = tokenize("12*x;").unwrap();
    assert_eq!(
        kinds(&tokens),
        vec![
            TokenKind::Int,
            TokenKind::Star,
            TokenKind::Identifier,
            TokenKind::Semicolon,
            TokenKind::EOF
        ]
    );
    assert_eq!(values(&tokens), vec!["12", "*", "x", ";", ""]);
}

#[test]
fn word_ending_in_quote_starts_a_string() {
    let tokens = tokenize("ab\"cd\"").unwrap();
    assert_eq!(kinds(&tokens), vec![TokenKind::Identifier, TokenKind::String, TokenKind::EOF]);
    assert_eq!(values(&tokens), vec!["ab", "cd", ""]);
}

#[test]
fn unterminated_string_counts_embedded_newlines() {
    let err = tokenize("\"a\nb\nc").unwrap_err();
    match err {
        LexError::UnterminatedString { line, .. } => assert_eq!(line, 3),
        other => panic!("unexpected error {:?}", other),
    }
}

#[test]
fn unterminated_string_after_earlier_lines() {
    let err = tokenize("let a = 1 ;\nlet s = \"x\ny").unwrap_err();
    assert_eq!(
        err,
        LexError::UnterminatedString { line: 3, message: "unterminated string literal".to_string() }
    );
}

#[test]
fn string_newlines_stay_in_the_literal_and_advance_lines() {
    let tokens = tokenize("\"a\nb\" c").unwrap();
    assert_eq!(tokens[0].kind, TokenKind::String);
    assert_eq!(tokens[0].value, "a\nb");
    assert_eq!(tokens[1].kind, TokenKind::Identifier);
    assert_eq!(tokens[1].line, 2);
    assert_eq!(tokens[2].line, 2);
}

#[test]
fn malformed_number_reports_accumulated_text() {
    let err = tokenize("1.2.3").unwrap_err();
    assert_eq!(
        err,
        LexError::InvalidNumber {
            value: "1.2".to_string(),
            line: 1,
            message: "a number may hold at most one '.'".to_string()
        }
    );
}

#[test]
fn invalid_character_is_reported_with_line() {
    let err = tokenize("a\nb @ c").unwrap_err();
    assert_eq!(
        err,
        LexError::InvalidCharacter {
            character: '@',
            line: 2,
            message: "invalid character".to_string()
        }
    );
}

#[test]
fn keywords_and_booleans() {
    let tokens = tokenize("if else fn let and or not return True False iffy _x").unwrap();
    assert_eq!(
        kinds(&tokens),
        vec![
            TokenKind::If,
            TokenKind::Else,
            TokenKind::Fn,
            TokenKind::Let,
            TokenKind::And,
            TokenKind::Or,
            TokenKind::Not,
            TokenKind::Return,
            TokenKind::Bool,
            TokenKind::Bool,
            TokenKind::Identifier,
            TokenKind::Identifier,
            TokenKind::EOF
        ]
    );
}

#[test]
fn punctuation_and_operators() {
    let tokens = tokenize("(){};+-*/=><").unwrap();
    assert_eq!(
        kinds(&tokens),
        vec![
            TokenKind::LeftParen,
            TokenKind::RightParen,
            TokenKind::LeftBrace,
            TokenKind::RightBrace,
            TokenKind::Semicolon,
            TokenKind::Plus,
            TokenKind::Minus,
            TokenKind::Star,
            TokenKind::Slash,
            TokenKind::Equal,
            TokenKind::GreaterThan,
            TokenKind::LessThan,
            TokenKind::EOF
        ]
    );
    assert_eq!(values(&tokens)[4], ";");
}

#[test]
fn whitespace_and_lines() {
    let tokens = tokenize(" a\t\r\nb\n\nc").unwrap();
    let lines: Vec<usize> = tokens.iter().map(|t| t.line).collect();
    assert_eq!(lines, vec![1, 2, 4, 4]);
}

#[test]
fn float_with_trailing_dot_then_word() {
    let tokens = tokenize("1.x").unwrap();
    assert_eq!(kinds(&tokens), vec![TokenKind::Float, TokenKind::Identifier, TokenKind::EOF]);
    assert_eq!(values(&tokens), vec!["1.", "x", ""]);
}

#[test]
fn char_table_lookup() {
    assert_eq!(char_to_token('('), Some(TokenKind::LeftParen));
    assert_eq!(char_to_token(';'), Some(TokenKind::Semicolon));
    assert_eq!(char_to_token('<'), Some(TokenKind::LessThan));
    assert_eq!(char_to_token('a'), None);
    assert_eq!(char_to_token('#'), None);
}

#[test]
fn non_ascii_letter_is_invalid() {
    let err = tokenize("é").unwrap_err();
    assert!(matches!(err, LexError::InvalidCharacter { character: 'é', line: 1, .. }));
}
