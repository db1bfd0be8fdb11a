use calc::error::ParseError;
use calc::node::{Binary, BinaryOp, Constant, Node, Unary, UnaryOp};
use calc::parse;
use std::rc::Rc;

fn value(node: &Node) -> f64 {
    match node {
        Node::Binary(binary) => {
            let lhs = value(&binary.lhs);
            let rhs = value(&binary.rhs);
            match binary.op {
                Binary::Add => lhs + rhs,
                Binary::Subtract => lhs - rhs,
                Binary::Multiply => lhs * rhs,
                Binary::Divide => lhs / rhs,
            }
        }
        Node::Unary(unary) => match unary.op {
            Unary::Negate => -value(&unary.operand),
        },
        Node::Constant(constant) => constant.value as f64,
    }
}

fn eval(text: &str) -> Result<f64, ParseError> {
    let root = parse(text)?;
    Ok(value(&root))
}

fn constant(id: usize, value: u64) -> Rc<Node> {
    Rc::new(Node::Constant(Constant::new(id, value)))
}

#[test]
fn lib_it_adds() {
    assert_eq!(3.0, eval("1 + 2").unwrap());
}

#[test]
fn lib_it_multiplies() {
    assert_eq!(16.0, eval("2 * 8").unwrap());
}

#[test]
fn it_enforces_operation_order() {
    assert_eq!(20.0, eval("4 + 2 * 8").unwrap());
}

#[test]
fn it_groups_terms() {
    assert_eq!(3.0, eval("((((5)+2)*2)-5)/3").unwrap());
}

#[test]
fn it_negates_values() {
    assert_eq!(-18.0, eval("6 * -3").unwrap());
}

#[test]
fn it_negates_groups() {
    assert_eq!(-12.0, eval("-(5 * 2) - 2").unwrap());
}

#[test]
fn it_parses_multiple_digits() {
    assert_eq!(42.0, eval("1 + 41").unwrap());
}

#[test]
fn it_parses_embedded_zero() {
    assert_eq!(103.0, eval("1 + 102").unwrap());
}

#[test]
fn it_enforces_group_close() {
    match eval("(1(") {
        Err(ParseError::InvalidGroup(_)) => (),
        _ => panic!("Must enforce closing paren"),
    }
}

#[test]
fn it_enforces_group_close_eof() {
    match eval("(1") {
        Err(ParseError::UnexpectedEof) => (),
        _ => panic!("Must enforce closing paren"),
    }
}

#[test]
fn it_enforces_missing_factor() {
    match eval("(") {
        Err(ParseError::UnexpectedEof) => (),
        _ => panic!("Must enforce factor grammar"),
    }
}

#[test]
fn it_enforces_factor_operators() {
    match eval("1 + *") {
        Err(ParseError::FactorExpected(_)) => (),
        _ => panic!("Must enforce factor grammar"),
    }
}

#[test]
fn it_enforces_unrecognized_tokens() {
    match eval("1 a 2") {
        Err(ParseError::InvalidToken(_)) => (),
        _ => panic!("Must enforce unrecognized tokens"),
    }
}

#[test]
fn it_enforces_extra_tokens() {
    match eval("(1 + 2) 2") {
        Err(ParseError::UnexpectedToken) => (),
        _ => panic!("Must enforce extra tokens"),
    }
}

#[test]
fn node_it_adds() {
    let lhs = constant(0, 1);
    let rhs = constant(0, 2);
    assert_eq!(3.0, value(&Node::Binary(BinaryOp::add(0, lhs, rhs))));
}

#[test]
fn it_subtracts() {
    let lhs = constant(0, 1);
    let rhs = constant(0, 2);
    assert_eq!(-1.0, value(&Node::Binary(BinaryOp::subtract(0, lhs, rhs))));
}

#[test]
fn node_it_multiplies() {
    let lhs = constant(0, 2);
    let rhs = constant(0, 3);
    assert_eq!(6.0, value(&Node::Binary(BinaryOp::multiply(0, lhs, rhs))));
}

#[test]
fn it_divides() {
    let lhs = constant(0, 6);
    let rhs = constant(0, 2);
    assert_eq!(3.0, value(&Node::Binary(BinaryOp::divide(0, lhs, rhs))));
}

#[test]
fn it_negates() {
    let rhs = constant(0, 2);
    assert_eq!(-2.0, value(&Node::Unary(UnaryOp::negate(0, rhs))));
}

#[test]
fn chains_of_one_rank_group_to_the_right() {
    assert_eq!(7.0, eval("8 - 3 - 2").unwrap());
    assert_eq!(4.0, eval("8 / 4 / 2").unwrap());
    assert_eq!(8.0, eval("8 - 3 + 1 - 2 + 2").unwrap());
    assert_eq!(16.0, eval("8 * 4 / 2").unwrap());
    assert_eq!(1.0, eval("2 / 4 * 3 / 6").unwrap());
}

#[test]
fn a_literal_has_its_own_value() {
    for n in [0u64, 7, 10, 99, 1024, 9007199254740992, u64::MAX] {
        assert_eq!(n as f64, eval(&n.to_string()).unwrap());
    }
}

#[test]
fn negation_repeats() {
    assert_eq!(5.0, eval("--5").unwrap());
    assert_eq!(-5.0, eval("---5").unwrap());
    assert_eq!(-1.0, eval("2 - - - 3").unwrap());
}
