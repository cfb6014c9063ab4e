use fae::ast::{Node, NodeKind, Parser};
use fae::lexer::Lexer;

fn parse(src: &str) -> Vec<Node> {
    let mut l = Lexer::new(src.to_string());
    assert!(l.try_all_checked());
    let mut p = Parser::new(l.tokens);
    assert!(p.try_all_checked());
    p.nodes
}

fn span(n: &Node) -> (usize, usize) {
    (n.pos.start, n.pos.end)
}

fn error_text(n: &Node) -> &str {
    match &n.kind {
        NodeKind::Error(s) => s.as_str(),
        other => panic!("not an error: {:?}", other),
    }
}

#[test]
fn parses_literals() {
    let nodes = parse("1 2.5 \"s\" true");
    assert_eq!(nodes.len(), 4);
    assert!(matches!(nodes[0].kind, NodeKind::Int(1)));
    match &nodes[1].kind {
        NodeKind::Number(t) => assert_eq!(t, "2.5"),
        other => panic!("{:?}", other),
    }
    match &nodes[2].kind {
        NodeKind::String(s) => assert_eq!(s, "s"),
        other => panic!("{:?}", other),
    }
    assert!(matches!(nodes[3].kind, NodeKind::Bool(true)));
    let spans: Vec<_> = nodes.iter().map(span).collect();
    assert_eq!(spans, vec![(0, 1), (2, 5), (6, 9), (10, 14)]);
}

#[test]
fn parses_loop_with_break() {
    let nodes = parse("loop { dup break }");
    assert_eq!(nodes.len(), 1);
    assert_eq!(span(&nodes[0]), (0, 18));
    match &nodes[0].kind {
        NodeKind::Loop { body } => {
            assert_eq!(body.len(), 2);
            match &body[0].kind {
                NodeKind::Instruction(s) => assert_eq!(s, "dup"),
                other => panic!("{:?}", other),
            }
            assert_eq!(span(&body[0]), (7, 10));
            assert!(matches!(body[1].kind, NodeKind::Break));
            assert_eq!(span(&body[1]), (11, 16));
        }
        other => panic!("{:?}", other),
    }
}

#[test]
fn parses_if_and_empty_body() {
    let nodes = parse("if { 1 } if { }");
    assert_eq!(nodes.len(), 2);
    match &nodes[0].kind {
        NodeKind::If { body } => {
            assert_eq!(body.len(), 1);
            assert!(matches!(body[0].kind, NodeKind::Int(1)));
        }
        other => panic!("{:?}", other),
    }
    assert_eq!(span(&nodes[0]), (0, 8));
    match &nodes[1].kind {
        NodeKind::If { body } => assert!(body.is_empty()),
        other => panic!("{:?}", other),
    }
    assert_eq!(span(&nodes[1]), (9, 15));
}

#[test]
fn parses_function_definition() {
    let nodes = parse("f() { 2 }");
    assert_eq!(nodes.len(), 1);
    match &nodes[0].kind {
        NodeKind::Function { name, params, body } => {
            assert_eq!(name, "f");
            assert!(params.is_empty());
            assert_eq!(body.len(), 1);
            assert!(matches!(body[0].kind, NodeKind::Int(2)));
            assert_eq!(span(&body[0]), (6, 7));
        }
        other => panic!("{:?}", other),
    }
    assert_eq!(span(&nodes[0]), (0, 9));
}

#[test]
fn symbol_without_parens_is_an_instruction() {
    let nodes = parse("f (");
    assert_eq!(nodes.len(), 2);
    match &nodes[0].kind {
        NodeKind::Instruction(s) => assert_eq!(s, "f"),
        other => panic!("{:?}", other),
    }
    assert_eq!(span(&nodes[0]), (0, 1));
    assert_eq!(error_text(&nodes[1]), "Unexpected token");
    assert_eq!(span(&nodes[1]), (2, 3));
}

#[test]
fn missing_open_brace() {
    let nodes = parse("loop 1");
    assert_eq!(nodes.len(), 2);
    assert_eq!(error_text(&nodes[0]), "Expected '{'");
    assert_eq!(span(&nodes[0]), (0, 4));
    assert!(matches!(nodes[1].kind, NodeKind::Int(1)));
}

#[test]
fn missing_close_brace() {
    let nodes = parse("loop { 1");
    assert_eq!(nodes.len(), 2);
    assert!(matches!(nodes[0].kind, NodeKind::Int(1)));
    assert_eq!(error_text(&nodes[1]), "Expected closing '}'");
    assert_eq!(span(&nodes[1]), (7, 8));
}

#[test]
fn unexpected_tokens_at_top_level() {
    let nodes = parse(", {}");
    assert_eq!(nodes.len(), 3);
    for n in &nodes {
        assert_eq!(error_text(n), "Unexpected token");
    }
    let spans: Vec<_> = nodes.iter().map(span).collect();
    assert_eq!(spans, vec![(0, 1), (2, 3), (3, 4)]);
}

#[test]
fn error_inside_a_body_stays_inside() {
    let nodes = parse("if { loop }");
    assert_eq!(nodes.len(), 1);
    assert_eq!(span(&nodes[0]), (0, 11));
    match &nodes[0].kind {
        NodeKind::If { body } => {
            assert_eq!(body.len(), 1);
            assert_eq!(error_text(&body[0]), "Expected '{'");
            assert_eq!(span(&body[0]), (5, 9));
        }
        other => panic!("{:?}", other),
    }
}

#[test]
fn item_that_cannot_start_in_a_body_stalls() {
    let mut l = Lexer::new("loop { , }".to_string());
    assert!(l.try_all_checked());
    let mut p = Parser::new(l.tokens);
    assert!(!p.try_all_checked());

    let mut l = Lexer::new("if { 'c' }".to_string());
    assert!(l.try_all_checked());
    let mut p = Parser::new(l.tokens);
    assert!(!p.try_all_checked());
}

#[test]
fn nested_bodies() {
    let nodes = parse("main() { loop { true if { break } } }");
    assert_eq!(nodes.len(), 1);
    match &nodes[0].kind {
        NodeKind::Function { name, body, .. } => {
            assert_eq!(name, "main");
            assert_eq!(body.len(), 1);
            match &body[0].kind {
                NodeKind::Loop { body } => {
                    assert_eq!(body.len(), 2);
                    assert!(matches!(body[0].kind, NodeKind::Bool(true)));
                    match &body[1].kind {
                        NodeKind::If { body } => {
                            assert_eq!(body.len(), 1);
                            assert!(matches!(body[0].kind, NodeKind::Break));
                        }
                        other => panic!("{:?}", other),
                    }
                }
                other => panic!("{:?}", other),
            }
        }
        other => panic!("{:?}", other),
    }
    assert_eq!(span(&nodes[0]), (0, 37));
}

#[test]
fn nodes_accessor() {
    let mut l = Lexer::new("1 2".to_string());
    assert!(l.try_all_checked());
    let mut p = Parser::new(l.into_tokens());
    assert!(p.try_all_checked());
    assert_eq!(p.nodes().len(), 2);
    assert_eq!(p.into_nodes().len(), 2);
}
