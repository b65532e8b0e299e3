use exprlang::lexer::Lexer;
use exprlang::token::Token;

#[test]
fn should_create_a_new_lexer() {
    let input: &str = "x = \"10\"";
    let lexer = Lexer::new(input);

    assert_eq!(lexer.input, input, "testing if lexer input has been right assigned");
}

#[test]
fn should_lex_let_identifier() {
    let input = "let";
    let mut lexer = Lexer::new(input);

    let next_token = lexer.next().unwrap();

    assert_eq!(next_token.data, Token::Let);
    assert_eq!(next_token.span, 0..3);
}

#[test]
fn should_lex_let_with_string() {
    let input = "let x = \"foo\"";
    let mut lexer = Lexer::new(input);

    let next_token = lexer.next().unwrap();

    assert_eq!(next_token.data, Token::Let);
    assert_eq!(next_token.span, 0..3);

    let next_token = lexer.next().unwrap();

    assert_eq!(next_token.data, Token::Id(String::from("x")));
    assert_eq!(next_token.span, 4..5);

    let next_token = lexer.next().unwrap();

    assert_eq!(next_token.data, Token::Equal);
    assert_eq!(next_token.span, 6..7);

    let next_token = lexer.next().unwrap();

    assert_eq!(next_token.data, Token::Str(String::from("foo")));
    assert_eq!(next_token.span, 8..13);
}

#[test]
fn whitespace_only_input_yields_no_tokens() {
    let mut lexer = Lexer::new(" \n\r  \n");
    assert!(lexer.next().is_none());
    assert!(lexer.next().is_none());
}

#[test]
fn empty_input_yields_no_tokens() {
    let mut lexer = Lexer::new("");
    assert!(lexer.next().is_none());
}

#[test]
fn digit_run_yields_single_int_token() {
    let mut lexer = Lexer::new("1234");
    let tok = lexer.next().unwrap();
    assert_eq!(tok.data, Token::Int(1234));
    assert_eq!(tok.span, 0..4);
    assert!(lexer.next().is_none());
}

#[test]
fn leading_zeros_are_part_of_the_run() {
    let mut lexer = Lexer::new("007");
    let tok = lexer.next().unwrap();
    assert_eq!(tok.data, Token::Int(7));
    assert_eq!(tok.span, 0..3);
}

#[test]
fn largest_machine_int_lexes() {
    let mut lexer = Lexer::new("18446744073709551615");
    let tok = lexer.next().unwrap();
    assert_eq!(tok.data, Token::Int(usize::MAX));
    assert_eq!(tok.span, 0..20);
}

#[test]
fn let_alone_is_a_single_token() {
    let mut lexer = Lexer::new("let");
    let tok = lexer.next().unwrap();
    assert_eq!(tok.data, Token::Let);
    assert_eq!(tok.span, 0..3);
    assert!(lexer.next().is_none());
}

#[test]
fn id_equal_string_with_spans() {
    let mut lexer = Lexer::new("x = \"10\"");
    let tok = lexer.next().unwrap();
    assert_eq!(tok.data, Token::Id(String::from("x")));
    assert_eq!(tok.span, 0..1);
    let tok = lexer.next().unwrap();
    assert_eq!(tok.data, Token::Equal);
    assert_eq!(tok.span, 2..3);
    let tok = lexer.next().unwrap();
    assert_eq!(tok.data, Token::Str(String::from("10")));
    assert_eq!(tok.span, 4..8);
    assert!(lexer.next().is_none());
}

#[test]
fn unknown_character_lexes_to_error() {
    let mut lexer = Lexer::new("@");
    let tok = lexer.next().unwrap();
    assert_eq!(tok.data, Token::Error);
    assert_eq!(tok.span, 0..1);
    assert!(lexer.next().is_none());
}

#[test]
fn unterminated_string_keeps_accumulated_text() {
    let mut lexer = Lexer::new("\"abc");
    let tok = lexer.next().unwrap();
    assert_eq!(tok.data, Token::Str(String::from("abc")));
    assert_eq!(tok.span, 0..4);
    assert!(lexer.next().is_none());
}

#[test]
fn backslash_in_string_is_kept_verbatim() {
    let mut lexer = Lexer::new("\"a\\b\"");
    let tok = lexer.next().unwrap();
    assert_eq!(tok.data, Token::Str(String::from("a\\b")));
    assert_eq!(tok.span, 0..5);
}

#[test]
fn keyword_must_match_exactly() {
    let mut lexer = Lexer::new("letx in_ in");
    let tok = lexer.next().unwrap();
    assert_eq!(tok.data, Token::Id(String::from("letx")));
    assert_eq!(tok.span, 0..4);
    let tok = lexer.next().unwrap();
    assert_eq!(tok.data, Token::Id(String::from("in_")));
    assert_eq!(tok.span, 5..8);
    let tok = lexer.next().unwrap();
    assert_eq!(tok.data, Token::In);
    assert_eq!(tok.span, 9..11);
}

#[test]
fn single_character_tokens() {
    let mut lexer = Lexer::new("=+-*/()");
    assert_eq!(lexer.next().unwrap().data, Token::Equal);
    assert_eq!(lexer.next().unwrap().data, Token::Plus);
    assert_eq!(lexer.next().unwrap().data, Token::Minus);
    assert_eq!(lexer.next().unwrap().data, Token::Star);
    assert_eq!(lexer.next().unwrap().data, Token::Slash);
    assert_eq!(lexer.next().unwrap().data, Token::LPar);
    assert_eq!(lexer.next().unwrap().data, Token::RPar);
    assert!(lexer.next().is_none());
}

#[test]
fn identifiers_never_contain_digits() {
    let mut lexer = Lexer::new("ab1cd");
    let tok = lexer.next().unwrap();
    assert_eq!(tok.data, Token::Id(String::from("ab")));
    assert_eq!(tok.span, 0..2);
    let tok = lexer.next().unwrap();
    assert_eq!(tok.data, Token::Int(1));
    assert_eq!(tok.span, 2..3);
    let tok = lexer.next().unwrap();
    assert_eq!(tok.data, Token::Id(String::from("cd")));
    assert_eq!(tok.span, 3..5);
}
