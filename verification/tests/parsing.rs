use rjq::parser::{parse_query, CompOp, Expression, LexError, Lexer, ParseError, Parser, Token};
use rjq::value::Number;

#[test]
fn test_lexer_simple_tokens() {
    let mut lexer = Lexer::new(". | .. [] {} , : ?");
    let tokens = lexer.tokenize().unwrap();

    assert_eq!(
        tokens,
        vec![
            Token::Dot,
            Token::Pipe,
            Token::DotDot,
            Token::LeftBracket,
            Token::RightBracket,
            Token::LeftBrace,
            Token::RightBrace,
            Token::Comma,
            Token::Colon,
            Token::Question,
        ]
    );
}

#[test]
fn test_lexer_literals() {
    let mut lexer = Lexer::new("\"hello\" 42 true false null");
    let tokens = lexer.tokenize().unwrap();

    assert_eq!(
        tokens,
        vec![
            Token::StringLiteral("hello".to_string()),
            Token::NumberLiteral(Number {
                mantissa: 42,
                scale: 0
            }),
            Token::BoolLiteral(true),
            Token::BoolLiteral(false),
            Token::Null,
        ]
    );
}

#[test]
fn test_lexer_operators_and_parens() {
    let mut lexer = Lexer::new("( ) == != > < >= <=");
    let tokens = lexer.tokenize().unwrap();
    assert_eq!(
        tokens,
        vec![
            Token::LeftParen,
            Token::RightParen,
            Token::Op(CompOp::Eq),
            Token::Op(CompOp::Ne),
            Token::Op(CompOp::Gt),
            Token::Op(CompOp::Lt),
            Token::Op(CompOp::Ge),
            Token::Op(CompOp::Le),
        ]
    );
}

#[test]
fn test_lexer_string_escapes() {
    let mut lexer = Lexer::new("\"a\\nb\\t\\\"c\\\\d\\x\"");
    let tokens = lexer.tokenize().unwrap();
    assert_eq!(
        tokens,
        vec![Token::StringLiteral("a\nb\t\"c\\dx".to_string())]
    );
}

#[test]
fn test_lexer_decimal_number() {
    let mut lexer = Lexer::new("-12.34");
    let tokens = lexer.tokenize().unwrap();
    assert_eq!(
        tokens,
        vec![Token::NumberLiteral(Number {
            mantissa: -1234,
            scale: 2
        })]
    );
}

#[test]
fn test_lexer_unexpected_char() {
    let mut lexer = Lexer::new(".a @");
    assert_eq!(lexer.tokenize(), Err(LexError::UnexpectedChar('@')));
}

#[test]
fn test_lexer_unterminated_string() {
    let mut lexer = Lexer::new("\"abc");
    assert_eq!(lexer.tokenize(), Err(LexError::UnterminatedString));
}

#[test]
fn test_lexer_malformed_number() {
    let mut lexer = Lexer::new("5.");
    assert_eq!(lexer.tokenize(), Err(LexError::MalformedNumber));
    let mut lexer2 = Lexer::new("-");
    assert_eq!(lexer2.tokenize(), Err(LexError::MalformedNumber));
}

#[test]
fn test_lexer_number_overflow() {
    let mut lexer = Lexer::new("12345678901234567890123");
    assert_eq!(lexer.tokenize(), Err(LexError::NumberOverflow));
}

#[test]
fn test_parser_identity() {
    let expr = parse_query(".").unwrap();
    assert!(matches!(expr, Expression::Identity));
}

#[test]
fn test_parser_property_access() {
    let expr = parse_query(".name").unwrap();
    match expr {
        Expression::Property(name) => assert_eq!(name, "name"),
        _ => panic!("Expected Property expression"),
    }
}

#[test]
fn test_parser_array_index() {
    let expr = parse_query(".[0]").unwrap();
    match expr {
        Expression::Index(idx) => assert_eq!(idx, 0),
        _ => panic!("Expected Index expression"),
    }
}

#[test]
fn test_parser_pipe() {
    let expr = parse_query(". | .name").unwrap();
    match expr {
        Expression::Pipe(left, right) => {
            assert!(matches!(*left, Expression::Identity));
            match *right {
                Expression::Property(name) => assert_eq!(name, "name"),
                _ => panic!("Expected Property expression on right side of pipe"),
            }
        }
        _ => panic!("Expected Pipe expression"),
    }
}

#[test]
fn test_parser_recursive_descent() {
    let expr = parse_query("..").unwrap();
    assert!(matches!(expr, Expression::RecursiveDescent));
}

#[test]
fn test_parser_negative_index() {
    let expr = parse_query(".[-1]").unwrap();
    assert_eq!(expr, Expression::Index(-1));
}

#[test]
fn test_parser_slices() {
    assert_eq!(
        parse_query(".[1:3]").unwrap(),
        Expression::Slice(Some(1), Some(3))
    );
    assert_eq!(parse_query(".[2:]").unwrap(), Expression::Slice(Some(2), None));
    assert_eq!(parse_query(".[:2]").unwrap(), Expression::Slice(None, Some(2)));
    assert_eq!(parse_query(".[:]").unwrap(), Expression::Slice(None, None));
    assert_eq!(parse_query(".[]").unwrap(), Expression::Iterate);
}

#[test]
fn test_parser_dotted_chain() {
    let expr = parse_query(".a.b").unwrap();
    assert_eq!(
        expr,
        Expression::Pipe(
            Box::new(Expression::Property("a".to_string())),
            Box::new(Expression::Property("b".to_string())),
        )
    );
}

#[test]
fn test_parser_property_then_index() {
    let expr = parse_query(".phones[0]").unwrap();
    assert_eq!(
        expr,
        Expression::Pipe(
            Box::new(Expression::Property("phones".to_string())),
            Box::new(Expression::Index(0)),
        )
    );
}

#[test]
fn test_parser_quoted_property() {
    let expr = parse_query(".\"name with spaces\"").unwrap();
    assert_eq!(expr, Expression::Property("name with spaces".to_string()));
}

#[test]
fn test_parser_array_construct() {
    let expr = parse_query("[.a, .b]").unwrap();
    assert_eq!(
        expr,
        Expression::ArrayConstruct(vec![
            Expression::Property("a".to_string()),
            Expression::Property("b".to_string()),
        ])
    );
    assert_eq!(parse_query("[]").unwrap(), Expression::ArrayConstruct(vec![]));
}

#[test]
fn test_parser_object_construct() {
    let expr = parse_query("{x: .a, y: .b}").unwrap();
    assert_eq!(
        expr,
        Expression::ObjectConstruct(vec![
            ("x".to_string(), Expression::Property("a".to_string())),
            ("y".to_string(), Expression::Property("b".to_string())),
        ])
    );
}

#[test]
fn test_parser_object_shorthand() {
    let expr = parse_query("{city}").unwrap();
    assert_eq!(
        expr,
        Expression::ObjectConstruct(vec![(
            "city".to_string(),
            Expression::Property("city".to_string())
        )])
    );
}

#[test]
fn test_parser_select() {
    let expr = parse_query("select(.t == \"b\")").unwrap();
    assert_eq!(
        expr,
        Expression::Select(
            Box::new(Expression::Property("t".to_string())),
            CompOp::Eq,
            Box::new(Expression::Literal("b".to_string())),
        )
    );
}

#[test]
fn test_parser_map_keys_length() {
    assert_eq!(
        parse_query("map(.x)").unwrap(),
        Expression::MapEach(Box::new(Expression::Property("x".to_string())))
    );
    assert_eq!(parse_query("keys").unwrap(), Expression::Keys);
    assert_eq!(parse_query("length").unwrap(), Expression::Length);
}

#[test]
fn test_parser_trailing_tokens() {
    match parse_query(". .") {
        Err(ParseError::UnexpectedToken(Token::Dot)) => {}
        other => panic!("expected a trailing-token error, got {:?}", other),
    }
}

#[test]
fn test_parser_unexpected_eof() {
    assert_eq!(parse_query("["), Err(ParseError::UnexpectedEof));
    assert_eq!(parse_query(""), Err(ParseError::UnexpectedEof));
}

#[test]
fn test_parser_expected_token() {
    match parse_query(".[0}") {
        Err(ParseError::Expected(Token::RightBracket, Token::RightBrace)) => {}
        other => panic!("expected a missing-bracket error, got {:?}", other),
    }
}

#[test]
fn test_parser_lex_error_wrapped() {
    assert_eq!(
        parse_query(".a @"),
        Err(ParseError::Lex(LexError::UnexpectedChar('@')))
    );
}

#[test]
fn test_parser_new_positions() {
    let mut lexer = Lexer::new(".a");
    let tokens = lexer.tokenize().unwrap();
    let mut parser = Parser::new(tokens);
    let expr = parser.parse().unwrap();
    assert_eq!(expr, Expression::Property("a".to_string()));
}
