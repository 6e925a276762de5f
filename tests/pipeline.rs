use json_parser::ast::{Array, Object, PairStringValue, Value};
use json_parser::errors::{SyntaxErr, SyntaxErrReason};
use json_parser::lexer::{tokenize, Lexer};
use json_parser::parser::{parse as parse_tokens, Parser};
use json_parser::tokens::{Span, Token, TokenKind};

fn tokens(s: &str) -> Result<Vec<Token>, SyntaxErr> {
    tokenize(s)
}

fn parse(s: &str) -> Result<Value, SyntaxErr> {
    parse_tokens(tokens(s).expect("input should tokenize"))
}

fn range(start: usize, end: usize) -> Span {
    Span::Range { start, end }
}

fn tok(kind: TokenKind, start: usize, end: usize) -> Token {
    Token { kind, span: range(start, end) }
}

fn string(s: &str) -> Value {
    Value::String(s.to_string())
}

fn member(name: &str, value: Value) -> PairStringValue {
    PairStringValue { name: name.to_string(), value }
}

#[test]
fn tokenize_array_of_numbers() {
    let toks = tokens("[1,2,3]").unwrap();
    assert_eq!(
        toks,
        vec![
            tok(TokenKind::LBracket, 0, 1),
            tok(TokenKind::Num(1), 1, 2),
            tok(TokenKind::Comma, 2, 3),
            tok(TokenKind::Num(2), 3, 4),
            tok(TokenKind::Comma, 4, 5),
            tok(TokenKind::Num(3), 5, 6),
            tok(TokenKind::RBracket, 6, 7),
        ]
    );
}

#[test]
fn keyword_run_is_read_whole() {
    let err = tokens("truefoo").unwrap_err();
    assert_eq!(err.reason, SyntaxErrReason::UnknownKeyword("truefoo".to_string()));
    assert_eq!(err.span, Span::EndOfInput);
}

#[test]
fn unknown_keyword_inside_text_has_its_range() {
    let err = tokens("[nul]").unwrap_err();
    assert_eq!(err.reason, SyntaxErrReason::UnknownKeyword("nul".to_string()));
    assert_eq!(err.span, range(1, 4));
}

#[test]
fn keywords_become_literals() {
    let toks = tokens("true false null").unwrap();
    assert_eq!(
        toks,
        vec![
            tok(TokenKind::Bool(true), 0, 4),
            tok(TokenKind::Bool(false), 5, 10),
            Token { kind: TokenKind::Null, span: Span::EndOfInput },
        ]
    );
}

#[test]
fn unexpected_character_is_reported_where_it_stands() {
    let err = tokens("[ -1]").unwrap_err();
    assert_eq!(err.reason, SyntaxErrReason::UnexpectedChar('-'));
    assert_eq!(err.span, range(2, 3));
}

#[test]
fn string_span_covers_its_content() {
    let toks = tokens(" \"ab\":").unwrap();
    assert_eq!(
        toks,
        vec![tok(TokenKind::String("ab".to_string()), 2, 4), tok(TokenKind::Semicolon, 5, 6)]
    );
}

#[test]
fn quote_always_ends_a_string() {
    let toks = tokens("\"a\\\"").unwrap();
    assert_eq!(toks, vec![tok(TokenKind::String("a\\".to_string()), 1, 3)]);
}

#[test]
fn lexeme_open_at_the_end_gets_end_span() {
    let toks = tokens("12").unwrap();
    assert_eq!(toks, vec![Token { kind: TokenKind::Num(12), span: Span::EndOfInput }]);
    let toks = tokens("\"ab").unwrap();
    assert_eq!(
        toks,
        vec![Token { kind: TokenKind::String("ab".to_string()), span: Span::EndOfInput }]
    );
}

#[test]
fn largest_number_fits() {
    let toks = tokens("2147483647 007").unwrap();
    assert_eq!(toks, vec![tok(TokenKind::Num(2147483647), 0, 10), Token { kind: TokenKind::Num(7), span: Span::EndOfInput }]);
}

#[test]
fn number_past_32_bits_is_an_error() {
    let err = tokens("[2147483648]").unwrap_err();
    assert_eq!(err.reason, SyntaxErrReason::NumberOverflow);
    assert_eq!(err.span, range(1, 11));
}

#[test]
fn empty_input_has_no_tokens() {
    assert_eq!(tokens("").unwrap(), vec![]);
    assert_eq!(tokens(" \t\r\n").unwrap(), vec![]);
}

#[test]
fn empty_object_and_array() {
    assert_eq!(parse("{}").unwrap(), Value::Object(Object { values: vec![] }));
    assert_eq!(parse("[]").unwrap(), Value::Array(Array { values: vec![] }));
}

#[test]
fn trailing_comma_in_object_is_rejected() {
    let err = parse("{\"a\":1,}").unwrap_err();
    assert_eq!(err.reason, SyntaxErrReason::UnexpectedToken(TokenKind::RBrace));
    assert_eq!(err.span, range(7, 8));
}

#[test]
fn trailing_comma_in_array_is_rejected() {
    let err = parse("[1,]").unwrap_err();
    assert_eq!(err.reason, SyntaxErrReason::Expected("a value".to_string()));
    assert_eq!(err.span, range(3, 4));
}

#[test]
fn leading_comma_in_array_fails_at_the_comma() {
    let err = parse("[,1]").unwrap_err();
    assert_eq!(err.reason, SyntaxErrReason::Expected("a value".to_string()));
    assert_eq!(err.span, range(1, 2));
}

#[test]
fn leading_comma_in_object_fails_at_the_comma() {
    let err = parse("{,\"a\":1}").unwrap_err();
    assert_eq!(err.reason, SyntaxErrReason::UnexpectedToken(TokenKind::Comma));
    assert_eq!(err.span, range(1, 2));
}

#[test]
fn nested_document() {
    let v = parse("{\"a\": [\"a\", \"b\", 1], \"caca\": {\"b\": true}}").unwrap();
    let expected = Value::Object(Object {
        values: vec![
            member("a", Value::Array(Array { values: vec![string("a"), string("b"), Value::Number(1)] })),
            member("caca", Value::Object(Object { values: vec![member("b", Value::Bool(true))] })),
        ],
    });
    assert_eq!(v, expected);
}

#[test]
fn member_order_and_repeated_names_are_kept() {
    let v = parse("{\"b\":1,\"a\":null,\"b\":false}").unwrap();
    let expected = Value::Object(Object {
        values: vec![
            member("b", Value::Number(1)),
            member("a", Value::Null),
            member("b", Value::Bool(false)),
        ],
    });
    assert_eq!(v, expected);
}

#[test]
fn scalars_parse_alone() {
    assert_eq!(parse("42").unwrap(), Value::Number(42));
    assert_eq!(parse("\"x\"").unwrap(), string("x"));
    assert_eq!(parse("null").unwrap(), Value::Null);
    assert_eq!(parse("false").unwrap(), Value::Bool(false));
}

#[test]
fn missing_colon_is_reported() {
    let err = parse("{\"a\":1,\"b\" 2}").unwrap_err();
    assert_eq!(err.reason, SyntaxErrReason::Expected("a semicolon".to_string()));
    assert_eq!(err.span, range(11, 12));
    let err = parse("{\"a\" 1}").unwrap_err();
    assert_eq!(err.reason, SyntaxErrReason::UnexpectedToken(TokenKind::Num(1)));
    assert_eq!(err.span, range(5, 6));
}

#[test]
fn running_out_of_tokens() {
    let err = parse("[").unwrap_err();
    assert_eq!(err.reason, SyntaxErrReason::UnexpectedEof);
    assert_eq!(err.span, Span::EndOfInput);
    let err = parse("{").unwrap_err();
    assert_eq!(err.reason, SyntaxErrReason::UnexpectedEof);
    assert_eq!(err.span, Span::EndOfInput);
    let err = parse("").unwrap_err();
    assert_eq!(err.reason, SyntaxErrReason::UnexpectedEof);
}

#[test]
fn stray_token_is_not_a_value() {
    let err = parse("]").unwrap_err();
    assert_eq!(err.reason, SyntaxErrReason::Expected("a value".to_string()));
    assert_eq!(err.span, range(0, 1));
}

#[test]
fn object_parses_directly() {
    let mut p = Parser::new(tokens("{\"k\":[]} 5").unwrap());
    let v = p.object().unwrap();
    assert_eq!(
        v,
        Value::Object(Object { values: vec![member("k", Value::Array(Array { values: vec![] }))] })
    );
    let mut q = Parser::new(tokens("[1]").unwrap());
    let err = q.object().unwrap_err();
    assert_eq!(err.reason, SyntaxErrReason::UnexpectedToken(TokenKind::LBracket));
    assert_eq!(err.span, range(0, 1));
}

#[test]
fn pair_parses_directly() {
    let mut p = Parser::new(tokens("\"k\":\"v\"").unwrap());
    assert_eq!(p.pair().unwrap(), member("k", string("v")));
    let mut q = Parser::new(tokens("1:2").unwrap());
    let err = q.pair().unwrap_err();
    assert_eq!(err.reason, SyntaxErrReason::UnexpectedToken(TokenKind::Num(1)));
}

#[test]
fn every_kind_of_value_reads_back() {
    let v = parse("[[],{},\"x\",0,true,false,null,{\"k\":[1,2]}]").unwrap();
    let expected = Value::Array(Array {
        values: vec![
            Value::Array(Array { values: vec![] }),
            Value::Object(Object { values: vec![] }),
            string("x"),
            Value::Number(0),
            Value::Bool(true),
            Value::Bool(false),
            Value::Null,
            Value::Object(Object {
                values: vec![member(
                    "k",
                    Value::Array(Array { values: vec![Value::Number(1), Value::Number(2)] }),
                )],
            }),
        ],
    });
    assert_eq!(v, expected);
}

#[test]
fn only_the_first_value_is_read() {
    assert_eq!(parse("1 2").unwrap(), Value::Number(1));
}

#[test]
fn lexer_and_parser_objects_agree_with_entry_points() {
    let text = "{\"n\": [true, 3]}";
    let toks = Lexer::new(text).tokenize().unwrap();
    assert_eq!(toks, tokenize(text).unwrap());
    let v = Parser::new(toks).json().unwrap();
    assert_eq!(v, parse(text).unwrap());
}
