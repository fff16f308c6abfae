use rox::literal::Literal;
use rox::scanner::{is_alpha, is_alphanumeric, is_digit, is_dot, reserved_words, some_err, some_ok};

#[test]
fn parse_booleans() {
    assert!(matches!(Literal::parse("true".to_string()), Ok(Literal::Boolean(true))));
    assert!(matches!(Literal::parse("false".to_string()), Ok(Literal::Boolean(false))));
}

#[test]
fn parse_numbers() {
    match Literal::parse("12.25".to_string()) {
        Ok(Literal::Number(text)) => {
            assert_eq!(text, "12.25");
            assert_eq!(text.parse::<f64>().unwrap(), 12.25);
        }
        _ => panic!("expected a number"),
    }
    assert!(matches!(Literal::parse("-4".to_string()), Ok(Literal::Number(_))));
    assert!(matches!(Literal::parse("+0.5".to_string()), Ok(Literal::Number(_))));
}

#[test]
fn parse_number_rejects_other_shapes() {
    assert!(Literal::parse("1.2.3".to_string()).is_err());
    assert!(Literal::parse("7.".to_string()).is_err());
    assert!(Literal::parse(".5".to_string()).is_err());
    assert!(Literal::parse("1e3".to_string()).is_err());
    assert!(Literal::parse("inf".to_string()).is_err());
    assert!(Literal::parse("NaN".to_string()).is_err());
    assert!(Literal::parse("-".to_string()).is_err());
}

#[test]
fn parse_strings() {
    match Literal::parse("\"a b\"".to_string()) {
        Ok(Literal::String(s)) => assert_eq!(s, "a b"),
        _ => panic!("expected a string"),
    }
    assert!(matches!(Literal::parse("\"\"".to_string()), Ok(Literal::String(s)) if s.is_empty()));
    assert!(Literal::parse("\"open".to_string()).is_err());
    assert!(Literal::parse("\"".to_string()).is_err());
}

#[test]
fn parse_failure_keeps_text() {
    let err = Literal::parse("xyz".to_string()).unwrap_err();
    assert_eq!(err.literal().as_str(), "xyz");
    assert!(!err.message().is_empty());
}

#[test]
fn character_classes() {
    assert!(is_digit('0') && is_digit('9') && !is_digit('a'));
    assert!(is_alpha('a') && is_alpha('Z') && is_alpha('_') && !is_alpha('1') && !is_alpha(' '));
    assert!(is_alphanumeric('x') && is_alphanumeric('7') && !is_alphanumeric('.'));
    assert!(is_dot('.') && !is_dot(','));
}

#[test]
fn reserved_word_table() {
    let words = reserved_words();
    assert_eq!(words.len(), 16);
    assert_eq!(words[0].0.as_str(), "and");
    assert_eq!(words[15].0.as_str(), "while");
}

#[test]
fn step_wrappers() {
    let ok: Option<Result<u8, u8>> = some_ok(1);
    assert_eq!(ok, Some(Ok(1)));
    let err: Option<Result<u8, u8>> = some_err(2);
    assert_eq!(err, Some(Err(2)));
}
