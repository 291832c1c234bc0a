use tan_fmt::pretty::Formatter;
use tan_fmt::token::{Error, Range, Ranged, Token};

fn ranged(tokens: Vec<Token>) -> Vec<Ranged> {
    tokens
        .into_iter()
        .enumerate()
        .map(|(i, t)| Ranged(t, Range { start: i, end: i + 1 }))
        .collect()
}

fn sym(s: &str) -> Token {
    Token::Symbol(s.to_string())
}

fn format_tokens(tokens: Vec<Token>) -> Result<String, Vec<Error>> {
    Formatter::new(ranged(tokens)).format()
}

#[test]
fn well_formed_stream_succeeds_and_nesting_returns_to_zero() {
    let mut f = Formatter::new(ranged(vec![
        Token::LeftParen,
        sym("a"),
        Token::LeftBracket,
        sym("b"),
        Token::RightBracket,
        Token::LeftBrace,
        sym("c"),
        Token::RightBrace,
        Token::RightParen,
    ]));
    let out = f.format();
    assert!(out.is_ok());
    assert_eq!(f.nesting(), 0);
    assert!(f.errors().is_empty());
}

#[test]
fn unclosed_list_fails_with_one_unterminated_last() {
    let out = format_tokens(vec![Token::LeftParen, sym("a")]);
    let errors = out.unwrap_err();
    assert_eq!(errors.len(), 1);
    assert!(matches!(errors[0], Error::UnterminatedList));
}

#[test]
fn unclosed_list_keeps_earlier_recoverable_diagnostics() {
    let mut f = Formatter::new(ranged(vec![
        Token::RightBrace,
        Token::LeftBracket,
        Token::LeftParen,
        sym("x"),
        Token::RightParen,
    ]));
    let errors = f.format().unwrap_err();
    assert_eq!(errors.len(), 2);
    assert!(matches!(errors[0], Error::UnexpectedToken(Token::RightBrace)));
    assert!(matches!(errors[1], Error::UnterminatedList));
    assert!(f.errors().is_empty());
}

#[test]
fn lone_close_delimiter_is_swallowed() {
    let mut f = Formatter::new(ranged(vec![Token::RightParen]));
    assert_eq!(f.format().unwrap(), "");
    assert_eq!(f.errors().len(), 1);
    assert!(matches!(f.errors()[0], Error::UnexpectedToken(Token::RightParen)));
}

#[test]
fn indentation_is_four_spaces_per_level() {
    let out = format_tokens(vec![
        Token::LeftParen,
        sym("a"),
        Token::LeftParen,
        sym("b"),
        Token::RightParen,
        Token::RightParen,
    ])
    .unwrap();
    assert_eq!(out, "(    a\n    (        b\n)\n)");
    let lines: Vec<&str> = out.split('\n').collect();
    assert_eq!(lines[0], "(    a");
    assert_eq!(lines[1].len() - lines[1].trim_start().len(), 4);
    assert_eq!(lines[1].trim_start(), "(        b");
}

#[test]
fn bracket_body_closes_with_bracket() {
    let out = format_tokens(vec![Token::LeftBracket, sym("a"), Token::RightBracket]).unwrap();
    assert_eq!(out, "[\n    a\n]");
}

#[test]
fn brace_body_closes_with_brace_and_paren() {
    let out = format_tokens(vec![Token::LeftBrace, sym("a"), Token::RightBrace]).unwrap();
    assert_eq!(out, "{\n    a\n})");
}

#[test]
fn empty_lists_of_each_family() {
    let out = format_tokens(vec![
        Token::LeftParen,
        Token::RightParen,
        Token::LeftBracket,
        Token::RightBracket,
        Token::LeftBrace,
        Token::RightBrace,
    ])
    .unwrap();
    assert_eq!(out, "()[\n]{\n})");
}

#[test]
fn atoms_render_at_top_level_without_separator() {
    let out = format_tokens(vec![
        Token::Comment(";; note".to_string()),
        Token::String("hi there".to_string()),
        sym("x"),
        Token::Int(-42),
        Token::Float("2.5".to_string()),
        Token::Annotation("u8".to_string()),
        Token::Quote,
    ])
    .unwrap();
    assert_eq!(out, ";; note\"hi there\"x-422.5#u8'");
}

#[test]
fn integers_render_in_decimal() {
    assert_eq!(format_tokens(vec![Token::Int(0)]).unwrap(), "0");
    assert_eq!(format_tokens(vec![Token::Int(1234567890)]).unwrap(), "1234567890");
    assert_eq!(format_tokens(vec![Token::Int(i64::MAX)]).unwrap(), "9223372036854775807");
    assert_eq!(format_tokens(vec![Token::Int(i64::MIN)]).unwrap(), "-9223372036854775808");
}

#[test]
fn mismatched_close_inside_list_leaves_an_empty_line() {
    let mut f = Formatter::new(ranged(vec![
        Token::LeftParen,
        Token::RightBracket,
        sym("a"),
        Token::RightParen,
    ]));
    assert_eq!(f.format().unwrap(), "(    \n    a\n)");
    assert_eq!(f.errors().len(), 1);
    assert!(matches!(f.errors()[0], Error::UnexpectedToken(Token::RightBracket)));
}

#[test]
fn format_list_consumes_through_its_delimiter() {
    let mut f = Formatter::new(ranged(vec![sym("a"), sym("b"), Token::RightParen, sym("c")]));
    let body = f.format_list(Token::RightParen).unwrap();
    assert_eq!(body, "    a\n    b\n");
    assert_eq!(f.nesting(), 0);
    assert_eq!(f.format().unwrap(), "c");
}

#[test]
fn format_list_ends_at_any_equal_token() {
    let mut f = Formatter::new(ranged(vec![sym("a"), sym("end"), sym("b")]));
    assert_eq!(f.format_list(sym("end")).unwrap(), "    a\n");
}

#[test]
fn format_list_fails_when_tokens_run_out() {
    let mut f = Formatter::new(ranged(vec![sym("a")]));
    assert!(f.format_list(Token::RightParen).is_err());
    assert_eq!(f.errors().len(), 1);
    assert!(matches!(f.errors()[0], Error::UnterminatedList));
}

#[test]
fn format_expr_formats_a_whole_list() {
    let mut f = Formatter::new(ranged(vec![sym("a"), Token::RightParen]));
    let open = Ranged(Token::LeftParen, Range { start: 0, end: 1 });
    assert_eq!(f.format_expr(open).unwrap(), "(    a\n)");
    assert_eq!(f.nesting(), 0);
}

#[test]
fn deep_nesting_indents_each_level() {
    let mut tokens = Vec::new();
    for _ in 0..3 {
        tokens.push(Token::LeftParen);
    }
    tokens.push(sym("z"));
    for _ in 0..3 {
        tokens.push(Token::RightParen);
    }
    let out = format_tokens(tokens).unwrap();
    assert_eq!(out, "(    (        (            z\n)\n)\n)");
}
