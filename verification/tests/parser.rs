use exprlang::error::SyntaxError;
use exprlang::parser::Parser;
use exprlang::token::Token;
use exprlang::tree::{Expr, ExprKind, Operation};

/// Same tree shape: spans are ignored, everything else must agree.
fn shape_eq(a: &Expr, b: &Expr) -> bool {
    match (&a.data, &b.data) {
        (ExprKind::Int(x), ExprKind::Int(y)) => x == y,
        (ExprKind::Ident(x), ExprKind::Ident(y)) => x == y,
        (ExprKind::Let(x), ExprKind::Let(y)) => {
            x.name == y.name && shape_eq(&x.value, &y.value) && shape_eq(&x.next, &y.next)
        }
        (ExprKind::Binary(x), ExprKind::Binary(y)) => {
            x.operation == y.operation && shape_eq(&x.left, &y.left)
                && shape_eq(&x.right, &y.right)
        }
        (ExprKind::Unary(x), ExprKind::Unary(y)) => {
            x.operation == y.operation && shape_eq(&x.expr, &y.expr)
        }
        _ => false,
    }
}

#[test]
fn left_associativity_of_minus() {
    let tree = Parser::new("1 - 2 - 3").parse_expr().unwrap();
    match tree.data {
        ExprKind::Binary(outer) => {
            assert_eq!(outer.operation, Operation::Minus);
            match outer.left.data {
                ExprKind::Binary(inner) => {
                    assert_eq!(inner.operation, Operation::Minus);
                    assert!(matches!(inner.left.data, ExprKind::Int(1)));
                    assert!(matches!(inner.right.data, ExprKind::Int(2)));
                }
                other => panic!("left operand is not a binary node: {:?}", other),
            }
            assert!(matches!(outer.right.data, ExprKind::Int(3)));
        }
        other => panic!("root is not a binary node: {:?}", other),
    }
}

#[test]
fn precedence_of_mult_over_add() {
    let tree = Parser::new("1 + 2 * 3").parse_expr().unwrap();
    match tree.data {
        ExprKind::Binary(outer) => {
            assert_eq!(outer.operation, Operation::Add);
            assert!(matches!(outer.left.data, ExprKind::Int(1)));
            match outer.right.data {
                ExprKind::Binary(inner) => {
                    assert_eq!(inner.operation, Operation::Mult);
                    assert!(matches!(inner.left.data, ExprKind::Int(2)));
                    assert!(matches!(inner.right.data, ExprKind::Int(3)));
                }
                other => panic!("right operand is not a binary node: {:?}", other),
            }
        }
        other => panic!("root is not a binary node: {:?}", other),
    }
}

#[test]
fn left_associativity_of_slash() {
    let tree = Parser::new("8 / 4 / 2").parse_expr().unwrap();
    match tree.data {
        ExprKind::Binary(outer) => {
            assert_eq!(outer.operation, Operation::Slash);
            match outer.left.data {
                ExprKind::Binary(inner) => {
                    assert_eq!(inner.operation, Operation::Slash);
                    assert!(matches!(inner.left.data, ExprKind::Int(8)));
                    assert!(matches!(inner.right.data, ExprKind::Int(4)));
                }
                other => panic!("left operand is not a binary node: {:?}", other),
            }
            assert!(matches!(outer.right.data, ExprKind::Int(2)));
        }
        other => panic!("root is not a binary node: {:?}", other),
    }
}

#[test]
fn parenthesization_keeps_the_shape() {
    for source in ["1 + 2 * 3", "let x = 1 in x + 2", "-5", "a / b"] {
        let plain = Parser::new(source).parse_expr().unwrap();
        let wrapped_source = format!("({})", source);
        let wrapped = Parser::new(&wrapped_source).parse_expr().unwrap();
        assert!(
            shape_eq(&plain, &wrapped),
            "shape differs for {}: {:?} vs {:?}",
            source,
            plain,
            wrapped
        );
    }
}

#[test]
fn parens_do_not_widen_the_span() {
    let tree = Parser::new("(1)").parse_expr().unwrap();
    assert!(matches!(tree.data, ExprKind::Int(1)));
    assert_eq!(tree.span, 1..2);
}

#[test]
fn let_binding_has_disjoint_ordered_spans() {
    let tree = Parser::new("let x = 1 in x").parse_expr().unwrap();
    assert_eq!(tree.span, 0..14);
    match tree.data {
        ExprKind::Let(node) => {
            assert_eq!(node.name, "x");
            assert_eq!(node.value.span, 8..9);
            assert_eq!(node.next.span, 13..14);
            assert!(node.value.span.end <= node.next.span.start);
        }
        other => panic!("root is not a let node: {:?}", other),
    }
}

#[test]
fn let_without_in_clause_fails() {
    let result = Parser::new("let x = \"foo\"").parse_expr();
    match result {
        Err(SyntaxError::UnexpectedToken(_)) | Err(SyntaxError::UnexpectedEOF) => {}
        other => panic!("expected a syntax error, got {:?}", other),
    }
}

#[test]
fn empty_input_is_unexpected_eof() {
    let result = Parser::new("").parse_expr();
    assert!(matches!(result, Err(SyntaxError::UnexpectedEOF)));
}

#[test]
fn error_token_is_rejected_by_the_parser() {
    let result = Parser::new("@").parse_expr();
    match result {
        Err(SyntaxError::UnexpectedToken(tok)) => {
            assert_eq!(tok.data, Token::Error);
            assert_eq!(tok.span, 0..1);
        }
        other => panic!("expected an unexpected-token error, got {:?}", other),
    }
}

#[test]
fn unary_minus_recurses_into_full_expr() {
    let tree = Parser::new("-let x = 1 in x").parse_expr().unwrap();
    match tree.data {
        ExprKind::Unary(node) => {
            assert_eq!(node.operation, Operation::Minus);
            assert!(matches!(node.expr.data, ExprKind::Let(_)));
        }
        other => panic!("root is not a unary node: {:?}", other),
    }
    assert_eq!(tree.span, 0..15);
}

#[test]
fn integer_literal_parses_to_its_value() {
    let tree = Parser::new("42").parse_expr().unwrap();
    assert!(matches!(tree.data, ExprKind::Int(42)));
    assert_eq!(tree.span, 0..2);
}

#[test]
fn identifier_parses_to_owned_name() {
    let tree = Parser::new("foo").parse_expr().unwrap();
    match tree.data {
        ExprKind::Ident(name) => assert_eq!(name, "foo"),
        other => panic!("root is not an identifier: {:?}", other),
    }
    assert_eq!(tree.span, 0..3);
}

#[test]
fn check_peeks_without_consuming() {
    let mut parser = Parser::new("let");
    assert!(parser.check(Token::Let));
    assert!(!parser.check(Token::In));
    let tok = parser.next().unwrap();
    assert_eq!(tok.data, Token::Let);
    assert!(parser.next().is_none());
}

#[test]
fn eat_leaves_the_stream_on_mismatch() {
    let mut parser = Parser::new("x");
    match parser.eat(Token::Let) {
        Err(SyntaxError::UnexpectedToken(tok)) => {
            assert_eq!(tok.data, Token::Id(String::from("x")));
            assert_eq!(tok.span, 0..1);
        }
        other => panic!("expected an unexpected-token error, got {:?}", other),
    }
    let tok = parser.next().unwrap();
    assert_eq!(tok.data, Token::Id(String::from("x")));
}

#[test]
fn eat_match_projects_the_payload() {
    let mut parser = Parser::new("42 x");
    let int = parser
        .eat_match(|t| match t {
            Token::Int(x) => Some(x),
            _ => None,
        })
        .unwrap();
    assert_eq!(int.data, 42);
    assert_eq!(int.span, 0..2);
    let err = parser.eat_match(|t| match t {
        Token::Int(x) => Some(x),
        _ => None,
    });
    assert!(matches!(err, Err(SyntaxError::UnexpectedToken(_))));
}

#[test]
fn parse_id_copies_the_name_out() {
    let mut parser = Parser::new("abc");
    let name = parser.parse_id().unwrap();
    assert_eq!(name.data, "abc");
    assert_eq!(name.span, 0..3);
}
