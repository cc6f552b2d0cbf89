use json_rs::error::{LexError, ParseError};
use json_rs::lexer::Lexer;
use json_rs::number::{parse_decimal, Number};
use json_rs::parser::{parse_document, Parser};
use json_rs::token::TokenType;
use json_rs::value::{insert, Value};

fn parse(text: &str) -> Result<Value, ParseError> {
    parse_document(text.as_bytes().to_vec())
}

fn number(negative: bool, mantissa: u64, exponent: i64) -> Value {
    Value::Number(Number { negative, mantissa, exponent })
}

fn string(text: &str) -> Value {
    Value::String(text.to_string())
}

fn as_float(value: &Value) -> f64 {
    match value {
        Value::Number(n) => {
            let magnitude = n.mantissa as f64 * 10f64.powi(n.exponent as i32);
            if n.negative {
                -magnitude
            } else {
                magnitude
            }
        }
        _ => panic!("not a number"),
    }
}

#[test]
fn empty_array_object_and_string() {
    assert_eq!(parse("[]"), Ok(Value::Array(vec![])));
    assert_eq!(parse("{}"), Ok(Value::Object(vec![])));
    assert_eq!(parse("\"\""), Ok(string("")));
    assert_eq!(parse(" [ ] "), Ok(Value::Array(vec![])));
}

#[test]
fn bare_scalars() {
    assert_eq!(parse("null"), Ok(Value::Null));
    assert_eq!(parse("true"), Ok(Value::Boolean(true)));
    assert_eq!(parse("false"), Ok(Value::Boolean(false)));
    assert_eq!(parse("42"), Ok(number(false, 42, 0)));
    assert_eq!(parse("\"s\""), Ok(string("s")));
}

#[test]
fn missing_value_is_unexpected_token_at_the_brace() {
    assert_eq!(
        parse(r#"{"a": }"#),
        Err(ParseError::UnexpectedToken(TokenType::RBrace, 6))
    );
}

#[test]
fn unterminated_array_is_unexpected_end() {
    assert_eq!(
        parse(r#"["a", "b""#),
        Err(ParseError::UnexpectedToken(TokenType::EOF, 9))
    );
    assert_eq!(parse("["), Err(ParseError::UnexpectedToken(TokenType::EOF, 1)));
    assert_eq!(parse("{"), Err(ParseError::UnexpectedToken(TokenType::EOF, 1)));
    assert_eq!(parse(r#"{"a""#), Err(ParseError::UnexpectedToken(TokenType::EOF, 4)));
    assert_eq!(parse(r#"{"a":1"#), Err(ParseError::UnexpectedToken(TokenType::EOF, 6)));
    assert_eq!(parse(""), Err(ParseError::UnexpectedToken(TokenType::EOF, 0)));
}

#[test]
fn unterminated_string_is_a_lex_error() {
    assert_eq!(
        parse("\"abc"),
        Err(ParseError::Lex(LexError::UnterminatedString(0)))
    );
}

#[test]
fn end_to_end_example() {
    let parsed = parse(r#"{"k": [1, 2.5, "s", true, false, null]}"#).unwrap();
    let expected = Value::Object(vec![(
        "k".to_string(),
        Value::Array(vec![
            number(false, 1, 0),
            number(false, 25, -1),
            string("s"),
            Value::Boolean(true),
            Value::Boolean(false),
            Value::Null,
        ]),
    )]);
    assert_eq!(parsed, expected);
    match &parsed {
        Value::Object(members) => match &members[0].1 {
            Value::Array(items) => {
                assert_eq!(as_float(&items[0]), 1.0);
                assert_eq!(as_float(&items[1]), 2.5);
            }
            _ => panic!("not an array"),
        },
        _ => panic!("not an object"),
    }
}

#[test]
fn duplicate_keys_last_value_wins_in_first_place() {
    assert_eq!(
        parse(r#"{"a":1,"a":2}"#),
        Ok(Value::Object(vec![("a".to_string(), number(false, 2, 0))]))
    );
    assert_eq!(
        parse(r#"{"a":1,"b":2,"a":3,"c":4,"b":5}"#),
        Ok(Value::Object(vec![
            ("a".to_string(), number(false, 3, 0)),
            ("b".to_string(), number(false, 5, 0)),
            ("c".to_string(), number(false, 4, 0)),
        ]))
    );
}

#[test]
fn insert_replaces_or_appends() {
    let mut members = vec![("x".to_string(), Value::Null), ("y".to_string(), Value::Null)];
    insert(&mut members, "y".to_string(), Value::Boolean(true));
    insert(&mut members, "z".to_string(), Value::Boolean(false));
    assert_eq!(
        members,
        vec![
            ("x".to_string(), Value::Null),
            ("y".to_string(), Value::Boolean(true)),
            ("z".to_string(), Value::Boolean(false)),
        ]
    );
}

#[test]
fn whitespace_between_tokens_changes_nothing() {
    assert_eq!(parse(r#"{"a":1}"#), parse(r#"{ "a" : 1 }"#));
    assert_eq!(
        parse("[1,{\"b\":[true,null]},\"c d\"]"),
        parse(" \t[\n1 ,\r\n{ \"b\" :\t[ true , null ] } , \"c d\" ]\n")
    );
    assert_eq!(
        parse(" \t[\n1 ,\r\n{ \"b\" :\t[ true , null ] } , \"c d\" ]\n"),
        Ok(Value::Array(vec![
            number(false, 1, 0),
            Value::Object(vec![(
                "b".to_string(),
                Value::Array(vec![Value::Boolean(true), Value::Null])
            )]),
            string("c d"),
        ]))
    );
}

#[test]
fn nested_structures_keep_order() {
    assert_eq!(
        parse(r#"[[], [[]], {"a": {"b": []}}, [1, [2, [3]]]]"#),
        Ok(Value::Array(vec![
            Value::Array(vec![]),
            Value::Array(vec![Value::Array(vec![])]),
            Value::Object(vec![(
                "a".to_string(),
                Value::Object(vec![("b".to_string(), Value::Array(vec![]))])
            )]),
            Value::Array(vec![
                number(false, 1, 0),
                Value::Array(vec![number(false, 2, 0), Value::Array(vec![number(false, 3, 0)])]),
            ]),
        ]))
    );
}

#[test]
fn strings_with_escapes_reach_the_value() {
    assert_eq!(parse(r#""a\né😀""#), Ok(string("a\n\u{e9}\u{1f600}")));
    assert_eq!(
        parse(r#"{"k\"ey": "v\\"}"#),
        Ok(Value::Object(vec![("k\"ey".to_string(), string("v\\"))]))
    );
}

#[test]
fn number_values() {
    assert_eq!(parse("0"), Ok(number(false, 0, 0)));
    assert_eq!(parse("-0"), Ok(number(true, 0, 0)));
    assert_eq!(parse("-12.50e-2"), Ok(number(true, 1250, -4)));
    assert_eq!(parse("1e3"), Ok(number(false, 1, 3)));
    assert_eq!(parse("1E+3"), Ok(number(false, 1, 3)));
    assert_eq!(parse("0.001"), Ok(number(false, 1, -3)));
    assert_eq!(parse("007"), Ok(number(false, 7, 0)));
    assert_eq!(parse("18446744073709551615"), Ok(number(false, u64::MAX, 0)));
    assert_eq!(parse("1e9223372036854775807"), Ok(number(false, 1, i64::MAX)));
    assert_eq!(parse("1e-9223372036854775808"), Ok(number(false, 1, i64::MIN)));
    assert_eq!(as_float(&parse("-12.50e-2").unwrap()), -0.125);
}

#[test]
fn numbers_out_of_range_are_rejected() {
    assert_eq!(parse("18446744073709551616"), Err(ParseError::InvalidNumber(0)));
    assert_eq!(parse(" 1e9223372036854775808"), Err(ParseError::InvalidNumber(1)));
    assert_eq!(parse("[1, 0.1e-9223372036854775808]"), Err(ParseError::InvalidNumber(4)));
    assert_eq!(
        parse("1e999999999999999999999999999999999999999999"),
        Err(ParseError::InvalidNumber(0))
    );
}

#[test]
fn parse_decimal_wants_a_whole_literal() {
    let read = |text: &str| parse_decimal(&text.as_bytes().to_vec());
    assert_eq!(read("2.5"), Some(Number { negative: false, mantissa: 25, exponent: -1 }));
    assert_eq!(read("-3e-2"), Some(Number { negative: true, mantissa: 3, exponent: -2 }));
    assert_eq!(read(""), None);
    assert_eq!(read("-"), None);
    assert_eq!(read("1."), None);
    assert_eq!(read(".5"), None);
    assert_eq!(read("1e"), None);
    assert_eq!(read("1e+"), None);
    assert_eq!(read("12a"), None);
    assert_eq!(read("+1"), None);
    assert_eq!(read("1.5.2"), None);
}

#[test]
fn array_errors() {
    assert_eq!(parse("[1 2]"), Err(ParseError::ExpectedCommaOrBracket(3)));
    assert_eq!(parse("[1:2]"), Err(ParseError::ExpectedCommaOrBracket(2)));
    assert_eq!(parse("[1,]"), Err(ParseError::UnexpectedToken(TokenType::RBracket, 3)));
    assert_eq!(parse("[,1]"), Err(ParseError::UnexpectedToken(TokenType::Comma, 1)));
    assert_eq!(parse("[1}"), Err(ParseError::ExpectedCommaOrBracket(2)));
}

#[test]
fn object_errors() {
    assert_eq!(parse("{1:2}"), Err(ParseError::ExpectedKeyOrBrace(1)));
    assert_eq!(parse(r#"{"a":1,}"#), Err(ParseError::ExpectedKeyOrBrace(7)));
    assert_eq!(parse(r#"{"a":1 "b":2}"#), Err(ParseError::ExpectedKeyOrBrace(7)));
    assert_eq!(parse(r#"{"a" 1}"#), Err(ParseError::ExpectedColon(5)));
    assert_eq!(parse(r#"{"a","b"}"#), Err(ParseError::ExpectedColon(4)));
    assert_eq!(parse(r#"{"a":1]"#), Err(ParseError::ExpectedKeyOrBrace(6)));
}

#[test]
fn unexpected_leading_tokens() {
    assert_eq!(parse("]"), Err(ParseError::UnexpectedToken(TokenType::RBracket, 0)));
    assert_eq!(parse(" :"), Err(ParseError::UnexpectedToken(TokenType::Colon, 1)));
    assert_eq!(parse("+1"), Err(ParseError::UnexpectedToken(TokenType::Plus, 0)));
    assert_eq!(parse("- 1"), Err(ParseError::UnexpectedToken(TokenType::Minus, 0)));
    assert_eq!(parse(".5"), Err(ParseError::UnexpectedToken(TokenType::Period, 0)));
}

#[test]
fn trailing_input_is_rejected() {
    assert_eq!(parse("null true"), Err(ParseError::TrailingInput(5)));
    assert_eq!(parse("[] ]"), Err(ParseError::TrailingInput(3)));
    assert_eq!(parse("1 2 3"), Err(ParseError::TrailingInput(2)));
    assert_eq!(parse("{}  "), Ok(Value::Object(vec![])));
}

#[test]
fn lex_errors_surface_when_the_window_reaches_them() {
    assert_eq!(
        parse("[1, #]"),
        Err(ParseError::Lex(LexError::UnexpectedCharacter(b'#', 4)))
    );
    assert_eq!(
        parse("nul"),
        Err(ParseError::Lex(LexError::UnknownKeyword("nul".to_string(), 0)))
    );
    assert_eq!(
        parse(r#"["\q"]"#),
        Err(ParseError::Lex(LexError::InvalidEscape(2)))
    );
    assert_eq!(
        parse_document(vec![b'"', 0x80, b'"']),
        Err(ParseError::Lex(LexError::InvalidUtf8(0)))
    );
    assert_eq!(
        parse("1 2 #"),
        Err(ParseError::Lex(LexError::UnexpectedCharacter(b'#', 4)))
    );
    assert!(Parser::build(Lexer::new(b"null #".to_vec())).is_err());
}

#[test]
fn parser_without_a_filled_window_has_nothing_to_parse() {
    let mut parser = Parser::new(Lexer::new(b"null".to_vec()));
    assert_eq!(parser.parse(), Err(ParseError::EmptyLookahead));
}

#[test]
fn parse_leaves_the_window_behind_the_value() {
    let mut parser = Parser::build(Lexer::new(b"[1] true null".to_vec())).unwrap();
    assert_eq!(parser.parse(), Ok(Value::Array(vec![number(false, 1, 0)])));
    assert_eq!(parser.parse(), Ok(Value::Boolean(true)));
    assert_eq!(parser.parse_to_end(), Ok(Value::Null));
    assert_eq!(parser.parse(), Err(ParseError::UnexpectedToken(TokenType::EOF, 13)));
    assert_eq!(parser.parse(), Err(ParseError::UnexpectedToken(TokenType::EOF, 13)));
}

#[test]
fn whitespace_at_every_token_start_changes_nothing() {
    let text = r#"{"a":[1,-2.5e3,"x y",true,null],"b":{},"c":[]}"#;
    let expected = parse(text);
    assert!(expected.is_ok());
    let mut starts = vec![];
    let mut lexer = Lexer::new(text.as_bytes().to_vec());
    loop {
        lexer.next_token().unwrap();
        starts.push(lexer.token_position());
        if lexer.is_eof() {
            break;
        }
    }
    starts.push(text.len());
    assert_eq!(starts.len(), 26);
    for at in starts {
        let mut longer = text.as_bytes()[..at].to_vec();
        longer.extend_from_slice(b" \t\r\n ");
        longer.extend_from_slice(&text.as_bytes()[at..]);
        assert_eq!(parse_document(longer), expected);
    }
}

#[test]
fn whitespace_inside_a_token_is_not_between_tokens() {
    assert_eq!(parse("[12]"), Ok(Value::Array(vec![number(false, 12, 0)])));
    assert_eq!(parse("[1 2]"), Err(ParseError::ExpectedCommaOrBracket(3)));
    assert_eq!(parse("\"ab\""), Ok(string("ab")));
    assert_eq!(parse("\"a b\""), Ok(string("a b")));
}

#[test]
fn scanned_number_literals_are_number_literals() {
    for text in ["1.", "2e", "3E+x", "4.5.6", "-7-8", "0012", "9e-1e"] {
        let token = Lexer::new(text.as_bytes().to_vec()).next_token().unwrap();
        assert_eq!(token.token_type, TokenType::Integer);
        assert!(parse_decimal(&token.literal.as_bytes().to_vec()).is_some());
    }
}

#[test]
fn same_tokens_give_the_same_value() {
    assert_eq!(parse("[1,\"a\",{\"k\":null}]"), parse("\n[ 1 , \"a\" , { \"k\" : null } ]\n"));
    assert_eq!(parse("{\"a\":1,\"a\":2}"), parse("{ \"a\" : 1 , \"a\" : 2 }"));
}
