use calc::graph::Graph;
use calc::node::{BinaryOp, Constant, Node, UnaryOp};
use calc::error::ParseError;
use calc::{dot, parse, render_graph};
use std::rc::Rc;

#[test]
fn it_converts_to_dot_syntax() {
    let lhs = Rc::new(Node::Constant(Constant::new(1, 1)));
    let rhs = Rc::new(Node::Constant(Constant::new(2, 2)));
    let op = BinaryOp::add(0, lhs, rhs);
    let dot = Graph::dot(Rc::new(Node::Binary(op)));
    assert_eq!(
        "strict graph {\n  0 [ label = \"+\" ]\n 0 -- { 1 2 }\n  1 [ label = \"1\" \
         ]\n  2 [ label = \"2\" ]\n}",
        dot
    );
}

#[test]
fn a_constant_alone_has_no_edges() {
    let node = Rc::new(Node::Constant(Constant::new(3, 1234567890)));
    assert_eq!(
        "strict graph {\n  3 [ label = \"1234567890\" ]\n}",
        dot(node)
    );
}

#[test]
fn a_negation_has_one_edge() {
    let operand = Rc::new(Node::Constant(Constant::new(11, 0)));
    let node = Rc::new(Node::Unary(UnaryOp::negate(10, operand)));
    assert_eq!(
        "strict graph {\n  10 [ label = \"-\" ]\n 10 -- { 11 }\n  11 [ label = \"0\" ]\n}",
        dot(node)
    );
}

#[test]
fn every_operator_shows_its_sign() {
    let text = dot(parse("1 + 2 - 3 * 4 / -5").unwrap());
    let expected = [
        "strict graph {",
        "  2 [ label = \"+\" ]",
        " 2 -- { 0 6 }",
        "  0 [ label = \"1\" ]",
        "  6 [ label = \"-\" ]",
        " 6 -- { 4 10 }",
        "  4 [ label = \"2\" ]",
        "  10 [ label = \"*\" ]",
        " 10 -- { 8 14 }",
        "  8 [ label = \"3\" ]",
        "  14 [ label = \"/\" ]",
        " 14 -- { 12 16 }",
        "  12 [ label = \"4\" ]",
        "  16 [ label = \"-\" ]",
        " 16 -- { 17 }",
        "  17 [ label = \"5\" ]",
        "}",
    ];
    assert_eq!(expected.join("\n"), text);
}

#[test]
fn rendering_a_tree_again_gives_the_same_text() {
    let root = parse("-(5 * 2) - 2").unwrap();
    let first = dot(Rc::clone(&root));
    let second = dot(Rc::clone(&root));
    assert_eq!(first, second);
    assert_eq!(first, Graph::dot(root));
    assert_eq!(first, dot(parse("-(5 * 2) - 2").unwrap()));
}

#[test]
fn a_text_is_rendered_as_the_graph_of_its_tree() {
    assert_eq!(
        Ok("strict graph {\n  2 [ label = \"+\" ]\n 2 -- { 0 4 }\n  0 [ label = \"1\" ]\n  4 [ \
            label = \"2\" ]\n}"
            .to_owned()),
        render_graph("1 + 2")
    );
    assert_eq!(Ok(dot(parse("-(5 * 2) - 2").unwrap())), render_graph("-(5 * 2) - 2"));
}

#[test]
fn a_text_that_is_no_expression_has_no_graph() {
    assert_eq!(Err(ParseError::InvalidToken(2)), render_graph("1 a 2"));
    assert_eq!(Err(ParseError::UnexpectedToken), render_graph("(1 + 2) 2"));
    assert_eq!(Err(ParseError::UnexpectedEof), render_graph(""));
}
