use calc::iter::Iter;
use calc::node::{Binary, BinaryOp, Constant, Node, UnaryOp};
use calc::parse;
use calc::parser::{literals_in_range, Parser};
use calc::scanner::{Token, TokenKind};
use std::collections::HashSet;
use std::rc::Rc;

fn write(node: &Node, tokens: &mut Vec<Token>) {
    match node {
        Node::Binary(binary) => {
            group(&binary.lhs, tokens);
            let kind = match binary.op {
                Binary::Add => TokenKind::Plus,
                Binary::Subtract => TokenKind::Minus,
                Binary::Multiply => TokenKind::Star,
                Binary::Divide => TokenKind::Solidus,
            };
            tokens.push(Token { kind, position: binary.id });
            group(&binary.rhs, tokens);
        }
        Node::Unary(unary) => {
            tokens.push(Token { kind: TokenKind::Minus, position: unary.id });
            group(&unary.operand, tokens);
        }
        Node::Constant(constant) => {
            for digit in constant.value.to_string().chars() {
                let kind = TokenKind::Digit(digit.to_digit(10).unwrap());
                tokens.push(Token { kind, position: constant.id });
            }
        }
    }
}

fn group(node: &Node, tokens: &mut Vec<Token>) {
    tokens.push(Token { kind: TokenKind::LeftParen, position: 0 });
    write(node, tokens);
    tokens.push(Token { kind: TokenKind::RightParen, position: 0 });
}

fn constant(id: usize, value: u64) -> Rc<Node> {
    Rc::new(Node::Constant(Constant::new(id, value)))
}

#[test]
fn a_written_tree_is_read_back() {
    let sum = Rc::new(Node::Binary(BinaryOp::add(7, constant(3, 10), constant(9, 0))));
    let product = Rc::new(Node::Binary(BinaryOp::multiply(
        1,
        Rc::clone(&sum),
        constant(5, u64::MAX),
    )));
    let quotient = Rc::new(Node::Binary(BinaryOp::divide(
        40,
        Rc::new(Node::Unary(UnaryOp::negate(2, Rc::clone(&product)))),
        Rc::clone(&sum),
    )));
    let difference = Rc::new(Node::Binary(BinaryOp::subtract(
        0,
        Rc::clone(&quotient),
        Rc::new(Node::Unary(UnaryOp::negate(0, constant(0, 1)))),
    )));
    for tree in [constant(4, 42), sum, product, quotient, difference] {
        let mut tokens = Vec::new();
        write(&tree, &mut tokens);
        assert!(literals_in_range(&tokens));
        let partial = Parser::parse(&tokens).unwrap();
        assert_eq!(tree, partial.node);
        assert!(partial.tokens.is_empty());
    }
}

#[test]
fn the_ids_of_a_parsed_tree_are_distinct() {
    for text in [
        "1",
        "-(-(1))",
        "1 + 2 * 3 - 4 / 5",
        "((((5)+2)*2)-5)/3",
        "12 * (345 - -6789) / 1000",
    ] {
        let nodes = Iter::new(parse(text).unwrap()).collect();
        let ids: HashSet<usize> = nodes.iter().map(|node| node.id()).collect();
        assert_eq!(nodes.len(), ids.len());
    }
}

#[test]
fn the_ids_of_a_parsed_tree_rise_from_left_to_right() {
    let root = parse("10 - (2 + -3) * 4").unwrap();
    match &*root {
        Node::Binary(minus) => {
            assert_eq!(3, minus.id);
            assert_eq!(0, minus.lhs.id());
            match &*minus.rhs {
                Node::Binary(times) => {
                    assert_eq!(14, times.id);
                    assert_eq!(8, times.lhs.id());
                    assert_eq!(16, times.rhs.id());
                }
                _ => panic!("a product was expected"),
            }
        }
        _ => panic!("a difference was expected"),
    }
}
