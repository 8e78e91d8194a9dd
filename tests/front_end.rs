use json_preprocessor::ast_builder::build_ast;
use json_preprocessor::jsonpp::{EvalError, JsonPP};
use json_preprocessor::parsing::{handle_escapes, CharClass, Parser};
use json_preprocessor::tokenizing::{handle_escape_characters, is_valid_ident_char, tokenize, Token};

fn chars(s: &str) -> Vec<char> {
    s.chars().collect()
}

fn first_token(s: &str) -> Token {
    tokenize(&chars(s)).unwrap().into_iter().next().unwrap()
}

fn number(t: &Token) -> f64 {
    let Token::Number(text) = t else { panic!("not a number: {:?}", t) };
    let s: String = text.iter().collect();
    let (mant, exp) = s.split_once('e').unwrap_or((&s, "0"));
    mant.parse::<f64>().unwrap() * 10.0f64.powf(exp.parse::<f64>().unwrap())
}

#[test]
fn empty_input() {
    assert!(tokenize(&vec![]).unwrap().is_empty())
}

#[test]
fn simple_types() {
    assert_eq!(first_token("\"foo\""), Token::Text(chars("foo")));
    assert_eq!(first_token("simple_ident"), Token::Ident(chars("simple_ident")));
    assert_eq!(first_token("123"), Token::Int(123));
    assert_eq!(first_token("-123"), Token::Int(-123));
    assert_eq!(number(&first_token("123.5")), 123.5);
    assert_eq!(number(&first_token("-123.5")), -123.5);
    assert_eq!(number(&first_token("-123.5")), -123.5);
}

#[test]
fn escape_sequences() {
    for (input, output) in [
        ("\"\n\"", "\n"),
        ("\"\\n\"", "\n"),
        ("\"\t\"", "\t"),
        ("\"\\t\"", "\t"),
        ("\"\\\\\"", "\\"),
    ] {
        assert_eq!(first_token(input), Token::Text(chars(output)));
    }
}

#[test]
fn commaless_arrays() {
    for input in ["[1 2 3]", "[1,2,3]"] {
        assert_eq!(
            tokenize(&chars(input)).unwrap(),
            vec![Token::OpenBracket, Token::Int(1), Token::Int(2), Token::Int(3), Token::CloseBracket]
        );
    }
}

#[test]
fn comments_are_skipped() {
    assert_eq!(
        tokenize(&chars("[1 // one\n 2 /* two */ 3 /*/ 4]")).unwrap(),
        vec![
            Token::OpenBracket,
            Token::Int(1),
            Token::Int(2),
            Token::Int(3),
            Token::Int(4),
            Token::CloseBracket
        ]
    );
    assert_eq!(tokenize(&chars("\"open")), Err(EvalError::ParseError));
}

#[test]
fn identifier_characters() {
    assert!(is_valid_ident_char('a'));
    assert!(is_valid_ident_char('-'));
    assert!(!is_valid_ident_char(' '));
    assert!(!is_valid_ident_char(','));
    assert!(!is_valid_ident_char('('));
    assert!(!is_valid_ident_char('/'));
    assert!(!is_valid_ident_char('"'));
}

#[test]
fn quote_ends_an_identifier() {
    assert_eq!(
        tokenize(&chars("foo\"bar\"")).unwrap(),
        vec![Token::Ident(chars("foo")), Token::Text(chars("bar"))]
    );
}

#[test]
fn escapes_are_applied() {
    assert_eq!(handle_escape_characters(&chars("a\\nb\\q\\\\")), chars("a\nb\\q\\"));
    assert_eq!(handle_escapes(&chars("\\\"x\\t")), chars("\"x\t"));
}

#[test]
fn tree_of_tokens() {
    let tokens = tokenize(&chars("{\"a\": [1 true undefined] \"a\": (sum 1 x)}")).unwrap();
    match build_ast(&tokens).unwrap() {
        JsonPP::Object(ms) => {
            assert_eq!(ms.len(), 1);
            assert_eq!(ms[0].0, chars("a"));
            assert!(matches!(&ms[0].1, JsonPP::Dynamic(d) if d.args.len() == 3));
        }
        other => panic!("not an object: {:?}", other),
    }
    assert_eq!(build_ast(&tokenize(&chars("1.5")).unwrap()).err(), Some(EvalError::ParseError));
}

fn parse_string_of(input: &str) -> Vec<char> {
    let mut parser = Parser::from(format!("\"{}\"", input).as_bytes().to_vec());
    match parser.parse_string() {
        Ok(JsonPP::String(s)) => s,
        other => panic!("not a string: {:?}", other),
    }
}

#[test]
fn basic_string_parsing() {
    let basic_string = String::from("basic string");
    assert_eq!(parse_string_of(&basic_string), chars(&basic_string));
}

#[test]
fn one_char_string_parsing() {
    let monochar_string = String::from("x");
    assert_eq!(parse_string_of(&monochar_string), chars(&monochar_string));
}

#[test]
fn escape_char_string_parsing() {
    for (input, expected) in [("\\n", "\n"), ("\\t", "\t"), ("\\\\", "\\"), ("\\\"", "\"")] {
        assert_eq!(parse_string_of(input), chars(expected));
    }
}

#[test]
fn escaped_string_parsing() {
    let escaped_string = String::from("pre\\post");
    assert_eq!(parse_string_of(&escaped_string), chars(&escaped_string));
}

#[test]
fn parser_reads_values() {
    let mut parser = Parser::with_floats(b"{\"a\": [1, 2.5], // c\n \"b\": (sum x 1) \"c\": undefined}".to_vec(), vec![2.5f64.to_bits()]);
    match parser.parse().unwrap() {
        JsonPP::Object(ms) => {
            assert_eq!(ms.len(), 3);
            assert!(matches!(&ms[0].1, JsonPP::Array(xs) if xs.len() == 2 && matches!(xs[1], JsonPP::Float(b) if b == 2.5f64.to_bits())));
            assert!(matches!(&ms[2].1, JsonPP::Undefined));
        }
        other => panic!("not an object: {:?}", other),
    }
    let mut p = Parser::from(b"  // x\n  abc,".to_vec());
    p.skip_whitespace();
    assert_eq!(p.current(), Some('a'));
    assert!(p.starts_with("ab"));
    assert_eq!(p.take_while(CharClass::WordChar), chars("abc"));
    assert_eq!(p.rest(), chars(","));
    p.skip_to_next_iterable();
    assert_eq!(p.current(), None);
}
