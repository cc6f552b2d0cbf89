use json_rs::error::LexError;
use json_rs::lexer::Lexer;
use json_rs::token::{build_token, lookup_keyword, Token, TokenType};

fn check_tokenize(input: String, expected: Vec<Token>) {
    let mut lex = Lexer::new(input.as_bytes().to_owned());
    let mut tokens = vec![];
    while !lex.is_eof() {
        let tok = lex.next_token();
        assert!(tok.is_ok());

        tokens.push(tok.unwrap());
    }
    tokens.push(lex.next_token().unwrap());

    assert_eq!(tokens.len(), expected.len());

    for i in 0..expected.len() {
        assert_eq!(tokens[i], expected[i]);
    }
}

fn first_token(input: &str) -> Result<Token, LexError> {
    Lexer::new(input.as_bytes().to_vec()).next_token()
}

#[test]
fn test_tokenize() {
    check_tokenize(
        r#"{"abcde": "fghij"}[12345, 67890, null, true, false]:.+-"#.into(),
        vec![
            build_token(TokenType::LBrace, "{"),
            build_token(TokenType::String, "abcde"),
            build_token(TokenType::Colon, ":"),
            build_token(TokenType::String, "fghij"),
            build_token(TokenType::RBrace, "}"),
            build_token(TokenType::LBracket, "["),
            build_token(TokenType::Integer, "12345"),
            build_token(TokenType::Comma, ","),
            build_token(TokenType::Integer, "67890"),
            build_token(TokenType::Comma, ","),
            build_token(TokenType::Null, "null"),
            build_token(TokenType::Comma, ","),
            build_token(TokenType::True, "true"),
            build_token(TokenType::Comma, ","),
            build_token(TokenType::False, "false"),
            build_token(TokenType::RBracket, "]"),
            build_token(TokenType::Colon, ":"),
            build_token(TokenType::Period, "."),
            build_token(TokenType::Plus, "+"),
            build_token(TokenType::Minus, "-"),
            build_token(TokenType::EOF, ""),
        ],
    );
}

#[test]
fn token_new_keeps_kind_and_literal() {
    let token = Token::new(TokenType::String, "abc".to_string());
    assert_eq!(token.token_type, TokenType::String);
    assert_eq!(token.literal, "abc");
    assert_eq!(token, build_token(TokenType::String, "abc"));
    assert_ne!(token, build_token(TokenType::String, "abd"));
    assert_ne!(token, build_token(TokenType::Integer, "abc"));
}

#[test]
fn keyword_table() {
    assert_eq!(lookup_keyword("null"), Some(TokenType::Null));
    assert_eq!(lookup_keyword("true"), Some(TokenType::True));
    assert_eq!(lookup_keyword("false"), Some(TokenType::False));
    assert_eq!(lookup_keyword("nul"), None);
    assert_eq!(lookup_keyword("nulll"), None);
    assert_eq!(lookup_keyword(""), None);
    assert_eq!(lookup_keyword("True"), None);
}

#[test]
fn end_of_input_is_stable() {
    let mut lex = Lexer::new(b"  \t\r\n ".to_vec());
    assert!(!lex.is_eof());
    for _ in 0..4 {
        assert_eq!(lex.next_token(), Ok(build_token(TokenType::EOF, "")));
        assert!(lex.is_eof());
        assert_eq!(lex.token_position(), 6);
    }
    let mut empty = Lexer::new(Vec::new());
    assert!(empty.is_eof());
    assert_eq!(empty.next_token(), Ok(build_token(TokenType::EOF, "")));
    assert_eq!(empty.next_token(), Ok(build_token(TokenType::EOF, "")));
}

#[test]
fn token_positions_skip_whitespace() {
    let mut lex = Lexer::new(b"  [ \n true".to_vec());
    assert_eq!(lex.next_token(), Ok(build_token(TokenType::LBracket, "[")));
    assert_eq!(lex.token_position(), 2);
    assert_eq!(lex.next_token(), Ok(build_token(TokenType::True, "true")));
    assert_eq!(lex.token_position(), 6);
    assert!(lex.is_eof());
}

#[test]
fn numbers_are_matched_greedily() {
    check_tokenize(
        "12.5e-3 -7 1. 2e0 -".into(),
        vec![
            build_token(TokenType::Integer, "12.5e-3"),
            build_token(TokenType::Integer, "-7"),
            build_token(TokenType::Integer, "1"),
            build_token(TokenType::Period, "."),
            build_token(TokenType::Integer, "2e0"),
            build_token(TokenType::Minus, "-"),
            build_token(TokenType::EOF, ""),
        ],
    );
}

#[test]
fn number_token_shapes() {
    assert_eq!(first_token("12.5e-3,"), Ok(build_token(TokenType::Integer, "12.5e-3")));
    assert_eq!(first_token("-7]"), Ok(build_token(TokenType::Integer, "-7")));
    assert_eq!(first_token("1."), Ok(build_token(TokenType::Integer, "1")));
    assert_eq!(first_token("1.x"), Ok(build_token(TokenType::Integer, "1")));
    assert_eq!(first_token("2e"), Ok(build_token(TokenType::Integer, "2")));
    assert_eq!(first_token("3E+x"), Ok(build_token(TokenType::Integer, "3")));
    assert_eq!(first_token("3E+10"), Ok(build_token(TokenType::Integer, "3E+10")));
    assert_eq!(first_token("4e5.6"), Ok(build_token(TokenType::Integer, "4e5")));
    assert_eq!(first_token("007"), Ok(build_token(TokenType::Integer, "007")));
    assert_eq!(first_token("-"), Ok(build_token(TokenType::Minus, "-")));
    assert_eq!(first_token("-x"), Ok(build_token(TokenType::Minus, "-")));
    assert_eq!(first_token("+1"), Ok(build_token(TokenType::Plus, "+")));
    assert_eq!(first_token(".5"), Ok(build_token(TokenType::Period, ".")));
}

#[test]
fn keywords_are_matched_greedily() {
    assert_eq!(first_token("null,"), Ok(build_token(TokenType::Null, "null")));
    assert_eq!(
        first_token("  nullx "),
        Err(LexError::UnknownKeyword("nullx".to_string(), 2))
    );
    assert_eq!(first_token("t"), Err(LexError::UnknownKeyword("t".to_string(), 0)));
    assert_eq!(first_token("trueE"), Ok(build_token(TokenType::True, "true")));
}

#[test]
fn unexpected_character_carries_byte_and_position() {
    assert_eq!(first_token("  #"), Err(LexError::UnexpectedCharacter(b'#', 2)));
    assert_eq!(first_token("T"), Err(LexError::UnexpectedCharacter(b'T', 0)));
    assert_eq!(first_token("\u{e9}"), Err(LexError::UnexpectedCharacter(0xc3, 0)));
}

#[test]
fn strings_keep_their_content() {
    assert_eq!(first_token(r#""""#), Ok(build_token(TokenType::String, "")));
    assert_eq!(first_token(r#"" a  b ""#), Ok(build_token(TokenType::String, " a  b ")));
    assert_eq!(first_token("\"a\tb\nc\""), Ok(build_token(TokenType::String, "a\tb\nc")));
    assert_eq!(first_token("\"h\u{e9}llo \u{1f600}\""), Ok(build_token(TokenType::String, "h\u{e9}llo \u{1f600}")));
}

#[test]
fn escapes_are_resolved() {
    assert_eq!(
        first_token(r#""\"\\\/\b\f\n\r\t""#),
        Ok(build_token(TokenType::String, "\"\\/\u{8}\u{c}\n\r\t"))
    );
    assert_eq!(first_token(r#""Aé€""#), Ok(build_token(TokenType::String, "A\u{e9}\u{20ac}")));
    assert_eq!(first_token(r#""😀""#), Ok(build_token(TokenType::String, "\u{1f600}")));
    assert_eq!(first_token(r#""􏿿""#), Ok(build_token(TokenType::String, "\u{10ffff}")));
    assert_eq!(first_token(r#""\u0000""#), Ok(build_token(TokenType::String, "\u{0}")));
    assert_eq!(first_token(r#""￿""#), Ok(build_token(TokenType::String, "\u{ffff}")));
    assert_eq!(first_token(r#""a\"b" x"#), Ok(build_token(TokenType::String, "a\"b")));
}

#[test]
fn malformed_escapes_are_errors() {
    assert_eq!(first_token(r#""ab\x""#), Err(LexError::InvalidEscape(3)));
    assert_eq!(first_token(r#""\u12g4""#), Err(LexError::InvalidEscape(1)));
    assert_eq!(first_token(r#""\u12""#), Err(LexError::InvalidEscape(1)));
    assert_eq!(first_token(r#""\ud83d""#), Err(LexError::InvalidEscape(1)));
    assert_eq!(first_token(r#""\ud83dA""#), Err(LexError::InvalidEscape(1)));
    assert_eq!(first_token(r#""\ude00""#), Err(LexError::InvalidEscape(1)));
}

#[test]
fn unterminated_string_is_an_error() {
    assert_eq!(first_token("\"abc"), Err(LexError::UnterminatedString(0)));
    assert_eq!(first_token("  \""), Err(LexError::UnterminatedString(2)));
    assert_eq!(first_token("\"abc\\\""), Err(LexError::UnterminatedString(0)));
    assert_eq!(first_token("\"abc\\"), Err(LexError::UnterminatedString(0)));
    assert_eq!(first_token("\"abc\\u00"), Err(LexError::InvalidEscape(4)));
}

#[test]
fn invalid_utf8_in_a_string_is_an_error() {
    let mut lex = Lexer::new(vec![b' ', b'"', 0xff, b'"']);
    assert_eq!(lex.next_token(), Err(LexError::InvalidUtf8(1)));
    let mut cut = Lexer::new(vec![b'"', 0xc3, b'"']);
    assert_eq!(cut.next_token(), Err(LexError::InvalidUtf8(0)));
}
