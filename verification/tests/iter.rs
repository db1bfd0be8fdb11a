use calc::iter::Iter;
use calc::node::{Constant, Node, UnaryOp};
use calc::parse;
use calc::parser::Parser;
use calc::scanner::{Scanner, Token};
use std::rc::Rc;

#[test]
fn it_iterates() {
    let scanner = Scanner::new("1 + (2 - 3) * 4 / 5 * 6");
    let tokens: Vec<Token> = scanner.collect();
    let expr = Parser::parse(&tokens).unwrap();
    let iter = Iter::new(expr.node);
    let mapped: Vec<String> = iter.collect().iter().map(|node| node.to_string()).collect();
    assert_eq!(
        vec!["+", "1", "*", "-", "2", "3", "/", "4", "*", "5", "6"],
        mapped
    );
}

#[test]
fn the_root_comes_first() {
    for text in ["7", "-7", "1 + 2", "(1 + 2) * 3", "1 * 2 + 3"] {
        let root = parse(text).unwrap();
        let first = Iter::new(Rc::clone(&root)).next().unwrap();
        assert!(Rc::ptr_eq(&root, &first));
    }
}

#[test]
fn a_chain_of_negations_has_one_node_more_than_operators() {
    for (text, operators) in [("5", 0), ("-5", 1), ("--5", 2), ("-(-(-(5)))", 3)] {
        let nodes = Iter::new(parse(text).unwrap()).collect();
        assert_eq!(1 + operators, nodes.len());
    }
}

#[test]
fn an_operator_with_two_operands_counts_twice() {
    for (text, unary, binary) in [
        ("1 + 2", 0, 1),
        ("-1 + 2", 1, 1),
        ("1 + (2 - 3) * 4 / 5 * 6", 0, 5),
        ("-(1 - -2) * -3", 3, 2),
    ] {
        let nodes = Iter::new(parse(text).unwrap()).collect();
        assert_eq!(1 + unary + 2 * binary, nodes.len());
    }
}

#[test]
fn after_the_last_node_there_is_none() {
    let mut iter = Iter::new(parse("-1").unwrap());
    assert_eq!("-", iter.next().unwrap().to_string());
    assert_eq!("1", iter.next().unwrap().to_string());
    assert!(iter.next().is_none());
    assert!(iter.next().is_none());
}

#[test]
fn children_are_the_nodes_themselves() {
    let operand = Rc::new(Node::Constant(Constant::new(1, 5)));
    let node = Node::Unary(UnaryOp::negate(0, Rc::clone(&operand)));
    let children = node.children();
    assert_eq!(1, children.len());
    assert!(Rc::ptr_eq(&operand, &children[0]));
    assert_eq!(3, Rc::strong_count(&operand));
}

#[test]
fn a_deep_tree_is_walked_without_recursion() {
    let mut node = Rc::new(Node::Constant(Constant::new(0, 1)));
    let depth = 200_000;
    for id in 1..=depth {
        node = Rc::new(Node::Unary(UnaryOp::negate(id, node)));
    }
    let mut iter = Iter::new(Rc::clone(&node));
    let mut count = 0;
    while let Some(_) = iter.next() {
        count += 1;
    }
    assert_eq!(depth + 1, count);
    let mut rest = Some(node);
    while let Some(handle) = rest {
        rest = match Rc::try_unwrap(handle) {
            Ok(Node::Unary(unary)) => Some(unary.operand),
            _ => None,
        };
    }
}
