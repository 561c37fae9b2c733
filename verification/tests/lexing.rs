use apt_expr::apt::{APTNode, AptError};
use apt_expr::parser::{Lexer, Token};
use apt_expr::scalar::Scalar;

fn lex(s: &str) -> Vec<Token> {
    Lexer::begin_lexing(s)
}

fn parse(s: &str) -> Result<APTNode, AptError> {
    let tokens = lex(s);
    let mut pos: usize = 0;
    APTNode::parse_apt_node(&tokens, &mut pos)
}

#[test]
fn minus_alone_is_subtraction() {
    let toks = lex("- 5");
    assert_eq!(
        toks,
        vec![
            Token::Operation("-".to_string(), 0),
            Token::Constant("5".to_string(), 0)
        ]
    );
}

#[test]
fn minus_with_digits_is_constant() {
    let toks = lex("-5");
    assert_eq!(toks, vec![Token::Constant("-5".to_string(), 0)]);
}

#[test]
fn minus_in_application() {
    let toks = lex("(- 5 3)");
    assert_eq!(
        toks,
        vec![
            Token::OpenParen(0),
            Token::Operation("-".to_string(), 0),
            Token::Constant("5".to_string(), 0),
            Token::Constant("3".to_string(), 0),
            Token::CloseParen(0),
        ]
    );
}

#[test]
fn line_counter_tracks_newlines() {
    let toks = lex("(\n)");
    assert_eq!(toks, vec![Token::OpenParen(0), Token::CloseParen(1)]);
}

#[test]
fn end_to_end_example() {
    let toks = lex("( + X ( * Y 2.0 ) )");
    assert_eq!(
        toks,
        vec![
            Token::OpenParen(0),
            Token::Operation("+".to_string(), 0),
            Token::Operation("X".to_string(), 0),
            Token::OpenParen(0),
            Token::Operation("*".to_string(), 0),
            Token::Operation("Y".to_string(), 0),
            Token::Constant("2.0".to_string(), 0),
            Token::CloseParen(0),
            Token::CloseParen(0),
        ]
    );
    let tree = parse("( + X ( * Y 2.0 ) )").unwrap();
    let expected = APTNode::Add(vec![
        APTNode::X,
        APTNode::Mul(vec![APTNode::Y, APTNode::Constant(Scalar::new(2_000_000))]),
    ]);
    assert_eq!(tree, expected);
    assert_eq!(tree.to_lisp(), "( + X ( * Y 2.0 ) )");
}

#[test]
fn unknown_operator_is_an_error() {
    match parse("( frobnicate 1 2 )") {
        Err(AptError::UnresolvedOperator(text, line)) => {
            assert_eq!(text, "frobnicate");
            assert_eq!(line, 0);
        }
        other => panic!("expected an unresolved-operator error, got {:?}", other),
    }
}

#[test]
fn truncated_input_is_an_error() {
    match parse("( + 1") {
        Err(AptError::TruncatedInput) => {}
        other => panic!("expected a truncated-input error, got {:?}", other),
    }
}

#[test]
fn stray_dot_is_an_invalid_constant() {
    match parse(".") {
        Err(AptError::InvalidConstant(text, line)) => {
            assert_eq!(text, ".");
            assert_eq!(line, 0);
        }
        other => panic!("expected an invalid-constant error, got {:?}", other),
    }
}

#[test]
fn operator_names_resolve_case_insensitively() {
    let tree = parse("( FBM x Y t )").unwrap();
    let expected = APTNode::FBM(vec![APTNode::X, APTNode::Y, APTNode::T]);
    assert_eq!(tree, expected);
}

#[test]
fn round_trip_mixed_tree() {
    let text = "( Atan2 ( Sin X ) ( / T -0.25 ) )";
    let tree = parse(text).unwrap();
    assert_eq!(tree.to_lisp(), text);
    let again = parse(&tree.to_lisp()).unwrap();
    assert_eq!(again, tree);
}

#[test]
fn round_trip_noise_operators() {
    let text = "( Turbulence ( Cell1 X Y T ) ( Cell2 X Y T ) ( Ridge X Y 0.5 ) )";
    let tree = parse(text).unwrap();
    assert_eq!(tree.to_lisp(), text);
    assert_eq!(parse(&tree.to_lisp()).unwrap(), tree);
}

#[test]
fn str_to_node_builds_empty_shells() {
    let node = APTNode::str_to_node("atan2").unwrap();
    assert_eq!(node, APTNode::Atan2(vec![APTNode::Empty, APTNode::Empty]));
    assert!(APTNode::str_to_node("frobnicate").is_none());
}

#[test]
fn empty_placeholder_serializes_as_marker() {
    assert_eq!(APTNode::Empty.to_lisp(), "EMPTY");
}
