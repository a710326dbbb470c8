use brainwash::lexer::Lexer;
use brainwash::parser::{Node, Parser};

#[test]
fn test_valid_simple_noloops() {
    let lx = Lexer::new(b"+.-");
    let mut px = Parser::new(lx.tokens);

    let res = Node::Expr(Box::new(vec![
        Node::PlusNode,
        Node::PrintCurrPosNode,
        Node::MinusNode,
    ]));

    assert_eq!(px.parse_all(), res);
}

#[test]
fn test_valid_simple_loop() {
    let lx = Lexer::new(b"+.[-]+");
    let mut px = Parser::new(lx.tokens);

    let res = Node::Expr(Box::new(vec![
        Node::PlusNode,
        Node::PrintCurrPosNode,
        Node::LoopExpr(Box::new(vec![Node::MinusNode])),
        Node::LoopCloseNode,
        Node::PlusNode,
    ]));

    assert_eq!(px.parse_all(), res);
}

#[test]
fn test_nested_loops_parse_depth_aware() {
    // the matching close of the first open is the last bracket, not the
    // first close: nesting is honored
    let lx = Lexer::new(b"[[]]");
    let mut px = Parser::new(lx.tokens);

    let res = Node::Expr(Box::new(vec![
        Node::LoopExpr(Box::new(vec![
            Node::LoopExpr(Box::new(vec![])),
            Node::LoopCloseNode,
        ])),
        Node::LoopCloseNode,
    ]));

    assert_eq!(px.parse_all(), res);
}

#[test]
fn test_empty_input_parses_to_empty_sequence() {
    let lx = Lexer::new(b"no commands here, only prose");
    let mut px = Parser::new(lx.tokens);
    assert_eq!(px.parse_all(), Node::Expr(Box::new(vec![])));
}

#[test]
fn test_parser_cursor_ends_at_input_end() {
    let lx = Lexer::new(b"+.[-]+");
    let n = lx.tokens.len();
    let mut px = Parser::new(lx.tokens);
    px.parse_all();
    assert_eq!(px.position, n);
}
