use rlox::scanner::Scanner;
use rlox::token_type::{keyword, reserved_words, Literal, Token, TokenType};

fn kinds(source: &str) -> Vec<TokenType> {
    let mut scanner = Scanner::new(source.to_string());
    scanner.scan_tokens().iter().map(|t| t.token_type).collect()
}

#[test]
fn empty_source_gives_only_the_end_token() {
    let mut scanner = Scanner::new(String::new());
    let tokens = scanner.scan_tokens();
    assert_eq!(tokens.len(), 1);
    assert_eq!(tokens[0].token_type, TokenType::EOF);
    assert_eq!(tokens[0].lexeme, "");
    assert_eq!(tokens[0].line, 1);
    assert!(scanner.errors().is_empty());
}

#[test]
fn single_character_tokens() {
    assert_eq!(
        kinds("(){},.-+;/*"),
        vec![
            TokenType::LEFT_PAREN,
            TokenType::RIGHT_PAREN,
            TokenType::LEFT_BRACE,
            TokenType::RIGHT_BRACE,
            TokenType::COMMA,
            TokenType::DOT,
            TokenType::MINUS,
            TokenType::PLUS,
            TokenType::SEMICOLON,
            TokenType::SLASH,
            TokenType::STAR,
            TokenType::EOF,
        ]
    );
}

#[test]
fn one_or_two_character_tokens() {
    assert_eq!(
        kinds("! != = == < <= > >="),
        vec![
            TokenType::BANG,
            TokenType::BANG_EQUAL,
            TokenType::EQUAL,
            TokenType::EQUAL_EQUAL,
            TokenType::LESS,
            TokenType::LESS_EQUAL,
            TokenType::GREATER,
            TokenType::GREATER_EQUAL,
            TokenType::EOF,
        ]
    );
    assert_eq!(
        kinds("==="),
        vec![TokenType::EQUAL_EQUAL, TokenType::EQUAL, TokenType::EOF]
    );
}

#[test]
fn every_reserved_word_is_a_keyword() {
    let words = [
        ("and", TokenType::AND),
        ("class", TokenType::CLASS),
        ("else", TokenType::ELSE),
        ("false", TokenType::FALSE),
        ("for", TokenType::FOR),
        ("fun", TokenType::FUN),
        ("if", TokenType::IF),
        ("nil", TokenType::NIL),
        ("or", TokenType::OR),
        ("print", TokenType::PRINT),
        ("return", TokenType::RETURN),
        ("super", TokenType::SUPER),
        ("this", TokenType::THIS),
        ("true", TokenType::TRUE),
        ("var", TokenType::VAR),
        ("while", TokenType::WHILE),
    ];
    let table = reserved_words();
    assert_eq!(table.len(), 16);
    for (word, kind) in words {
        assert_eq!(keyword(&table, word), Some(kind));
        assert_eq!(kinds(word), vec![kind, TokenType::EOF]);
    }
    assert_eq!(keyword(&table, "andy"), None);
    assert_eq!(keyword(&table, ""), None);
    assert_eq!(keyword(&table, "AND"), None);
    assert_eq!(kinds("andy AND classes"), vec![
        TokenType::IDENTIFIER,
        TokenType::IDENTIFIER,
        TokenType::IDENTIFIER,
        TokenType::EOF,
    ]);
}

#[test]
fn identifiers_take_letters_digits_and_underscores() {
    let mut scanner = Scanner::new("_a1 printer x_2y".to_string());
    let tokens = scanner.scan_tokens();
    assert_eq!(tokens.len(), 4);
    assert_eq!(tokens[0].token_type, TokenType::IDENTIFIER);
    assert_eq!(tokens[0].lexeme, "_a1");
    assert_eq!(tokens[1].token_type, TokenType::IDENTIFIER);
    assert_eq!(tokens[1].lexeme, "printer");
    assert_eq!(tokens[2].lexeme, "x_2y");
    assert!(matches!(tokens[0].literal, Literal::Nil));
}

#[test]
fn numbers_keep_their_numeral() {
    let mut scanner = Scanner::new("12 45.67 8. .5".to_string());
    let tokens = scanner.scan_tokens();
    let kinds: Vec<TokenType> = tokens.iter().map(|t| t.token_type).collect();
    assert_eq!(
        kinds,
        vec![
            TokenType::NUMBER,
            TokenType::NUMBER,
            TokenType::NUMBER,
            TokenType::DOT,
            TokenType::DOT,
            TokenType::NUMBER,
            TokenType::EOF,
        ]
    );
    assert_eq!(tokens[0].lexeme, "12");
    assert!(matches!(&tokens[0].literal, Literal::Number(n) if n == "12"));
    assert_eq!(tokens[1].lexeme, "45.67");
    assert!(matches!(&tokens[1].literal, Literal::Number(n) if n == "45.67"));
    assert_eq!(tokens[2].lexeme, "8");
    assert_eq!(tokens[5].lexeme, "5");
}

#[test]
fn strings_may_run_over_lines() {
    let mut scanner = Scanner::new("\"one\ntwo\" x".to_string());
    let tokens = scanner.scan_tokens();
    assert_eq!(tokens.len(), 3);
    assert_eq!(tokens[0].token_type, TokenType::STRING);
    assert_eq!(tokens[0].lexeme, "\"one\ntwo\"");
    assert!(matches!(&tokens[0].literal, Literal::String(s) if s == "one\ntwo"));
    assert_eq!(tokens[0].line, 2);
    assert_eq!(tokens[1].line, 2);
    assert!(scanner.errors().is_empty());
}

#[test]
fn an_empty_string_is_a_token() {
    let mut scanner = Scanner::new("\"\"".to_string());
    let tokens = scanner.scan_tokens();
    assert_eq!(tokens.len(), 2);
    assert!(matches!(&tokens[0].literal, Literal::String(s) if s.is_empty()));
}

#[test]
fn an_unterminated_string_is_reported_and_scanning_ends_well() {
    let mut scanner = Scanner::new("1 \"abc\ndef".to_string());
    let tokens = scanner.scan_tokens();
    let kinds: Vec<TokenType> = tokens.iter().map(|t| t.token_type).collect();
    assert_eq!(kinds, vec![TokenType::NUMBER, TokenType::EOF]);
    assert_eq!(scanner.errors().len(), 1);
    assert_eq!(scanner.errors()[0].message, "Unterminated string.");
    assert_eq!(scanner.errors()[0].line, 2);
    assert_eq!(tokens[1].line, 2);
}

#[test]
fn an_unexpected_character_is_reported_and_passed_over() {
    let mut scanner = Scanner::new("1 @ 2\n#".to_string());
    let tokens = scanner.scan_tokens();
    let kinds: Vec<TokenType> = tokens.iter().map(|t| t.token_type).collect();
    assert_eq!(
        kinds,
        vec![TokenType::NUMBER, TokenType::NUMBER, TokenType::EOF]
    );
    let errors = scanner.errors();
    assert_eq!(errors.len(), 2);
    assert_eq!(errors[0].message, "Unexpected character '@'.");
    assert_eq!(errors[0].line, 1);
    assert_eq!(errors[1].message, "Unexpected character '#'.");
    assert_eq!(errors[1].line, 2);
}

#[test]
fn comments_run_to_the_end_of_the_line() {
    let mut scanner = Scanner::new("1 // two three\n4 / 5 // six".to_string());
    let tokens = scanner.scan_tokens();
    let kinds: Vec<TokenType> = tokens.iter().map(|t| t.token_type).collect();
    assert_eq!(
        kinds,
        vec![
            TokenType::NUMBER,
            TokenType::NUMBER,
            TokenType::SLASH,
            TokenType::NUMBER,
            TokenType::EOF,
        ]
    );
    assert_eq!(tokens[0].line, 1);
    assert_eq!(tokens[1].line, 2);
    assert_eq!(tokens[4].line, 2);
}

#[test]
fn whitespace_gives_no_token_and_newlines_count_lines() {
    let mut scanner = Scanner::new(" \t\r\n\n x".to_string());
    let tokens = scanner.scan_tokens();
    assert_eq!(tokens.len(), 2);
    assert_eq!(tokens[0].line, 3);
    assert_eq!(tokens[1].line, 3);
}

#[test]
fn characters_outside_ascii_are_reported_one_by_one() {
    let mut scanner = Scanner::new("é1".to_string());
    let tokens = scanner.scan_tokens();
    assert_eq!(tokens.len(), 2);
    assert_eq!(tokens[0].lexeme, "1");
    assert_eq!(scanner.errors().len(), 1);
    assert_eq!(scanner.errors()[0].message, "Unexpected character 'é'.");
}

#[test]
fn a_token_as_text() {
    let token = Token::new(
        TokenType::STRING,
        "example".to_string(),
        Literal::String("hello".to_string()),
        1,
    );
    assert_eq!(token.to_string(), "STRING example String(\"hello\")");
    let token = Token::new(TokenType::NUMBER, "4".to_string(), Literal::Number("4".to_string()), 0);
    assert_eq!(token.to_string(), "NUMBER 4 Number(4)");
    let token = Token::new(TokenType::LEFT_PAREN, "(".to_string(), Literal::Nil, 3);
    assert_eq!(token.to_string(), "LEFT_PAREN ( Nil");
    let token = Token::new(TokenType::TRUE, "true".to_string(), Literal::Boolean(true), 3);
    assert_eq!(token.to_string(), "TRUE true Boolean(true)");
}

#[test]
fn scanning_again_adds_another_end_token() {
    let mut scanner = Scanner::new("1".to_string());
    let first = scanner.scan_tokens();
    assert_eq!(first.len(), 2);
    let second = scanner.scan_tokens();
    assert_eq!(second.len(), 3);
    assert_eq!(second[2].token_type, TokenType::EOF);
}
