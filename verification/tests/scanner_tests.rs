use rox::scanner::{scan, Tokens};
use rox::token::Token;
use rox::token_type::Type;
use rox::literal::Literal;
use rox::model::ErrKind;
use rox::RoxError;

fn kinds(tokens: &Tokens) -> Vec<Type> {
    tokens.iter().map(|t| t.token_type).collect()
}

fn number_value(t: &Token) -> f64 {
    match &t.literal {
        Some(Literal::Number(text)) => text.parse::<f64>().unwrap(),
        other => panic!("expected a number literal, got {:?}", other.is_some()),
    }
}

#[test]
fn parenthesized_sum() {
    let tokens = scan("(1 + 2.5)".to_string()).unwrap();
    assert_eq!(
        kinds(&tokens),
        vec![Type::LeftParen, Type::Number, Type::Plus, Type::Number, Type::RightParen]
    );
    assert_eq!(number_value(&tokens[1]), 1.0);
    assert_eq!(number_value(&tokens[3]), 2.5);
    assert_eq!(tokens[1].lexeme, "1");
    assert_eq!(tokens[3].lexeme, "2.5");
}

#[test]
fn var_declaration() {
    let tokens = scan("var x = \"hi\";".to_string()).unwrap();
    assert_eq!(
        kinds(&tokens),
        vec![Type::Var, Type::Identifier, Type::Equal, Type::String, Type::Semicolon]
    );
    assert_eq!(tokens[1].lexeme, "x");
    match &tokens[3].literal {
        Some(Literal::String(s)) => assert_eq!(s.as_str(), "hi"),
        _ => panic!("expected a string literal"),
    }
    assert_eq!(tokens[3].lexeme, "\"hi\"");
}

#[test]
fn two_character_operators() {
    let tokens = scan("!= == <= >=".to_string()).unwrap();
    assert_eq!(
        kinds(&tokens),
        vec![Type::BangEqual, Type::EqualEqual, Type::LessEqual, Type::GreaterEqual]
    );
}

#[test]
fn one_character_operators() {
    let tokens = scan("! = < > . , ; * - + / { } ( )".to_string()).unwrap();
    assert_eq!(
        kinds(&tokens),
        vec![
            Type::Bang,
            Type::Equal,
            Type::Less,
            Type::Greater,
            Type::Dot,
            Type::Comma,
            Type::Semicolon,
            Type::Star,
            Type::Minus,
            Type::Plus,
            Type::Slash,
            Type::LeftBrace,
            Type::RightBrace,
            Type::LeftParen,
            Type::RightParen
        ]
    );
}

#[test]
fn comment_then_number() {
    let tokens = scan("// a comment\n1".to_string()).unwrap();
    assert_eq!(tokens.len(), 1);
    assert_eq!(tokens[0].token_type, Type::Number);
    assert_eq!(number_value(&tokens[0]), 1.0);
    assert_eq!(tokens[0].position, (1, 1));
}

#[test]
fn comment_alone() {
    let tokens = scan("// nothing here".to_string()).unwrap();
    assert!(tokens.is_empty());
}

#[test]
fn unterminated_string() {
    let err = scan("\"abc".to_string()).unwrap_err();
    assert_eq!(err.kind(), ErrKind::UnterminatedString);
    assert_eq!(err.text().as_str(), "\"abc");
    assert_eq!(err.position(), (0, 4));
}

#[test]
fn fractional_lookahead() {
    let tokens = scan("1.2.3".to_string()).unwrap();
    assert_eq!(kinds(&tokens), vec![Type::Number, Type::Dot, Type::Number]);
    assert_eq!(number_value(&tokens[0]), 1.2);
    assert_eq!(number_value(&tokens[2]), 3.0);
}

#[test]
fn trailing_dot_is_not_consumed() {
    let tokens = scan("7.".to_string()).unwrap();
    assert_eq!(kinds(&tokens), vec![Type::Number, Type::Dot]);
    assert_eq!(tokens[0].lexeme, "7");
}

#[test]
fn keywords_never_identifiers() {
    let tokens = scan("class fun for".to_string()).unwrap();
    assert_eq!(kinds(&tokens), vec![Type::Class, Type::Fun, Type::For]);
}

#[test]
fn all_sixteen_keywords() {
    let source = "and class else false for fun if nil or print return super this true var while";
    let tokens = scan(source.to_string()).unwrap();
    assert_eq!(
        kinds(&tokens),
        vec![
            Type::And,
            Type::Class,
            Type::Else,
            Type::False,
            Type::For,
            Type::Fun,
            Type::If,
            Type::Nil,
            Type::Or,
            Type::Print,
            Type::Return,
            Type::Super,
            Type::This,
            Type::True,
            Type::Var,
            Type::While
        ]
    );
}

#[test]
fn boolean_keywords_carry_literals() {
    let tokens = scan("true false".to_string()).unwrap();
    assert!(matches!(tokens[0].literal, Some(Literal::Boolean(true))));
    assert!(matches!(tokens[1].literal, Some(Literal::Boolean(false))));
}

#[test]
fn unexpected_character() {
    let err = scan("@".to_string()).unwrap_err();
    assert_eq!(err.kind(), ErrKind::UnexpectedCharacter);
    assert_eq!(err.text().as_str(), "");
    assert_eq!(err.position(), (0, 0));
}

#[test]
fn empty_source() {
    let tokens = scan(String::new()).unwrap();
    assert!(tokens.is_empty());
}

#[test]
fn empty_string_literal() {
    let tokens = scan("\"\"".to_string()).unwrap();
    assert_eq!(tokens.len(), 1);
    assert_eq!(tokens[0].token_type, Type::String);
    match &tokens[0].literal {
        Some(Literal::String(s)) => assert_eq!(s.as_str(), ""),
        _ => panic!("expected an empty string literal"),
    }
}

#[test]
fn string_with_newline_advances_line() {
    let tokens = scan("\"a\nb\" x".to_string()).unwrap();
    assert_eq!(kinds(&tokens), vec![Type::String, Type::Identifier]);
    assert_eq!(tokens[0].position, (1, 2));
    assert_eq!(tokens[1].position, (1, 4));
}

#[test]
fn positions_never_go_backwards() {
    let tokens = scan("var a = 1;\nprint a + 2; // end\nwhile (a < 3) { a = a + 1; }".to_string())
        .unwrap();
    for pair in tokens.windows(2) {
        let a = pair[0].position;
        let b = pair[1].position;
        assert!(a.0 < b.0 || (a.0 == b.0 && a.1 <= b.1));
    }
}

#[test]
fn identifiers_with_underscores_and_digits() {
    let tokens = scan("_tmp x1 andy".to_string()).unwrap();
    assert_eq!(kinds(&tokens), vec![Type::Identifier, Type::Identifier, Type::Identifier]);
    assert_eq!(tokens[2].lexeme, "andy");
}

#[test]
fn rox_error_wraps_scan_error() {
    let err = scan("#".to_string()).unwrap_err();
    let position = err.position();
    let wrapped = RoxError::new(err);
    assert_eq!(wrapped.error().position(), position);
}

#[test]
fn emit_trims_buffer() {
    // The emission protocol records the trimmed buffer as the lexeme.
    let mut s = rox::scanner::Scanner::new(" x ".to_string());
    s.consume(' ');
    s.consume('x');
    s.consume(' ');
    let t = s.emit(Type::Identifier);
    assert_eq!(t.lexeme, "x");
    assert_eq!(t.position, (0, 3));
}

#[test]
fn token_new_keeps_fields() {
    let t = Token::new(Type::Identifier, "abc".to_string(), None, (2, 5));
    assert_eq!(t.token_type, Type::Identifier);
    assert_eq!(t.lexeme, "abc");
    assert!(t.literal.is_none());
    assert_eq!(t.position, (2, 5));
}
