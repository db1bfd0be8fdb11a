use calc::decimal::to_decimal;
use calc::error::ParseError;
use calc::node::{BinaryOp, Constant, Node, UnaryOp};
use std::rc::Rc;

#[test]
fn numbers_are_written_in_base_ten() {
    assert_eq!("0", to_decimal(0));
    assert_eq!("7", to_decimal(7));
    assert_eq!("10", to_decimal(10));
    assert_eq!("1090", to_decimal(1090));
    assert_eq!("18446744073709551615", to_decimal(u64::MAX));
    for n in [1u64, 9, 11, 99, 100, 101, 65535, 4294967296] {
        assert_eq!(n.to_string(), to_decimal(n));
    }
}

#[test]
fn an_error_says_what_is_wrong() {
    assert_eq!("Unexpected end of file", ParseError::UnexpectedEof.description());
    assert_eq!("Unconsumed input", ParseError::UnexpectedToken.description());
    assert_eq!("Unrecognized token", ParseError::InvalidToken(1).description());
    assert_eq!("Expected group close", ParseError::InvalidGroup(2).description());
    assert_eq!(
        "Expected integer, negation, or group",
        ParseError::FactorExpected(3).description()
    );
}

#[test]
fn an_error_is_shown_with_its_position() {
    assert_eq!("Unexpected end of file", ParseError::UnexpectedEof.to_string());
    assert_eq!("Unconsumed input", ParseError::UnexpectedToken.to_string());
    assert_eq!("Unrecognized token: 2", ParseError::InvalidToken(2).to_string());
    assert_eq!("Expected group close: 10", ParseError::InvalidGroup(10).to_string());
    assert_eq!(
        "Expected integer, negation, or group: 0",
        ParseError::FactorExpected(0).to_string()
    );
}

#[test]
fn a_node_shows_its_sign_or_its_value() {
    let one = || Rc::new(Node::Constant(Constant::new(0, 1)));
    assert_eq!("+", Node::Binary(BinaryOp::add(0, one(), one())).to_string());
    assert_eq!("-", Node::Binary(BinaryOp::subtract(0, one(), one())).to_string());
    assert_eq!("*", Node::Binary(BinaryOp::multiply(0, one(), one())).to_string());
    assert_eq!("/", Node::Binary(BinaryOp::divide(0, one(), one())).to_string());
    assert_eq!("-", Node::Unary(UnaryOp::negate(0, one())).to_string());
    assert_eq!("1", one().to_string());
    assert_eq!("409", Constant::new(5, 409).to_string());
}

#[test]
fn a_node_is_named_by_its_id() {
    let one = || Rc::new(Node::Constant(Constant::new(8, 1)));
    assert_eq!(8, one().id());
    assert_eq!(3, Node::Binary(BinaryOp::divide(3, one(), one())).id());
    assert_eq!(4, Node::Unary(UnaryOp::negate(4, one())).id());
    assert_eq!(2, Node::Binary(BinaryOp::add(3, one(), one())).children().len());
    assert_eq!(0, one().children().len());
}
