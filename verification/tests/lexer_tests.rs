use rgraphql::{tokenize, TokenKind};

fn kinds(input: &str) -> Vec<TokenKind> {
    tokenize(input).unwrap().into_iter().map(|t| t.kind).collect()
}

#[test]
fn empty_input_is_just_eof() {
    assert_eq!(kinds(""), vec![TokenKind::Eof]);
}

#[test]
fn punctuators_are_recognized() {
    assert_eq!(
        kinds("{ } ( ) : ! $ @ [ ] | & ..."),
        vec![
            TokenKind::BraceL,
            TokenKind::BraceR,
            TokenKind::ParenL,
            TokenKind::ParenR,
            TokenKind::Colon,
            TokenKind::Bang,
            TokenKind::Dollar,
            TokenKind::At,
            TokenKind::BracketL,
            TokenKind::BracketR,
            TokenKind::Pipe,
            TokenKind::Amp,
            TokenKind::Spread,
            TokenKind::Eof,
        ]
    );
}

#[test]
fn names_and_commas_and_comments_are_handled() {
    let ks = kinds("hero, name # これはコメント\n droid");
    assert_eq!(
        ks,
        vec![
            TokenKind::Name("hero".to_string()),
            TokenKind::Name("name".to_string()),
            TokenKind::Name("droid".to_string()),
            TokenKind::Eof,
        ]
    );
}

#[test]
fn integer_and_float_literals() {
    assert_eq!(
        kinds("0 42 -7 3.14 -0.5 6.022e23 1e-10"),
        vec![
            TokenKind::Int("0".to_string()),
            TokenKind::Int("42".to_string()),
            TokenKind::Int("-7".to_string()),
            TokenKind::Float("3.14".to_string()),
            TokenKind::Float("-0.5".to_string()),
            TokenKind::Float("6.022e23".to_string()),
            TokenKind::Float("1e-10".to_string()),
            TokenKind::Eof,
        ]
    );
}

#[test]
fn leading_zero_integer_is_rejected() {
    assert!(tokenize("01").is_err());
}

#[test]
fn normal_string_with_escapes() {
    let ks = kinds(r#""hello\n\"world\"A""#);
    assert_eq!(
        ks,
        vec![TokenKind::Str("hello\n\"world\"A".to_string()), TokenKind::Eof]
    );
}

#[test]
fn unterminated_string_errors() {
    assert!(tokenize(r#""no end"#).is_err());
}

#[test]
fn block_string_dedents_common_indentation() {
    let src = "\"\"\"\n    line one\n      line two\n    \"\"\"";
    let ks = kinds(src);
    assert_eq!(
        ks,
        vec![
            TokenKind::Str("line one\n  line two".to_string()),
            TokenKind::Eof
        ]
    );
}
