use calc::error::ParseError;
use calc::node::{Binary, BinaryOp, Constant, Node, Unary, UnaryOp};
use calc::parse;
use calc::parser::{literals_in_range, Parser};
use calc::scanner::{Scanner, Token, TokenKind};
use std::rc::Rc;

fn constant(id: usize, value: u64) -> Rc<Node> {
    Rc::new(Node::Constant(Constant { id, value }))
}

fn binary(id: usize, op: Binary, lhs: Rc<Node>, rhs: Rc<Node>) -> Rc<Node> {
    Rc::new(Node::Binary(BinaryOp { id, op, lhs, rhs }))
}

fn negation(id: usize, operand: Rc<Node>) -> Rc<Node> {
    Rc::new(Node::Unary(UnaryOp { id, op: Unary::Negate, operand }))
}

#[test]
fn multiplication_binds_tighter_than_addition() {
    let expected = binary(
        2,
        Binary::Add,
        constant(0, 4),
        binary(6, Binary::Multiply, constant(4, 2), constant(8, 8)),
    );
    assert_eq!(Ok(expected), parse("4 + 2 * 8"));
    let expected = binary(
        6,
        Binary::Add,
        binary(2, Binary::Multiply, constant(0, 4), constant(4, 2)),
        constant(8, 8),
    );
    assert_eq!(Ok(expected), parse("4 * 2 + 8"));
}

#[test]
fn subtraction_groups_to_the_right() {
    let expected = binary(
        2,
        Binary::Subtract,
        constant(0, 8),
        binary(6, Binary::Subtract, constant(4, 3), constant(8, 2)),
    );
    assert_eq!(Ok(expected), parse("8 - 3 - 2"));
}

#[test]
fn division_groups_to_the_right() {
    let expected = binary(
        2,
        Binary::Divide,
        constant(0, 8),
        binary(6, Binary::Divide, constant(4, 4), constant(8, 2)),
    );
    assert_eq!(Ok(expected), parse("8 / 4 / 2"));
}

#[test]
fn a_group_leaves_no_node_of_its_own() {
    assert_eq!(Ok(constant(2, 5)), parse("((5))"));
    let expected = binary(
        5,
        Binary::Multiply,
        binary(2, Binary::Add, constant(1, 1), constant(3, 2)),
        constant(6, 3),
    );
    assert_eq!(Ok(expected), parse("(1+2)*3"));
}

#[test]
fn negation_applies_to_the_factor_that_follows() {
    assert_eq!(
        Ok(binary(2, Binary::Multiply, constant(0, 6), negation(4, constant(5, 3)))),
        parse("6 * -3")
    );
    let group = binary(4, Binary::Multiply, constant(2, 5), constant(6, 2));
    assert_eq!(
        Ok(binary(9, Binary::Subtract, negation(0, group), constant(11, 2))),
        parse("-(5 * 2) - 2")
    );
    assert_eq!(
        Ok(binary(2, Binary::Multiply, negation(0, constant(1, 2)), constant(3, 3))),
        parse("-2*3")
    );
}

#[test]
fn digits_in_a_row_are_one_number() {
    assert_eq!(Ok(constant(0, 102)), parse("102"));
    assert_eq!(Ok(constant(1, 7)), parse(" 007 "));
    assert_eq!(
        Ok(binary(2, Binary::Add, constant(0, 1), constant(4, 41))),
        parse("1 + 41")
    );
}

#[test]
fn blanks_do_not_part_the_digits_of_a_number() {
    assert_eq!(Ok(constant(0, 12)), parse("1 2"));
    assert_eq!(Ok(constant(1, 305)), parse(" 3\t0\n5"));
}

#[test]
fn a_number_ends_the_factor() {
    assert_eq!(Err(ParseError::UnexpectedToken), parse("1(2)"));
    assert_eq!(Err(ParseError::UnexpectedToken), parse("1)"));
}

#[test]
fn a_literal_is_read_back_as_its_number() {
    for n in [0u64, 9, 10, 409, 18446744073709551615] {
        assert_eq!(Ok(constant(0, n)), parse(&n.to_string()));
    }
}

#[test]
fn an_unrecognized_token_is_reported_where_it_stands() {
    assert_eq!(Err(ParseError::InvalidToken(2)), parse("1 a 2"));
    assert_eq!(Err(ParseError::InvalidToken(3)), parse("1*2?"));
    assert_eq!(Err(ParseError::InvalidToken(2)), parse("(1$)"));
}

#[test]
fn an_unrecognized_token_cannot_start_a_factor() {
    assert_eq!(Err(ParseError::FactorExpected(0)), parse("a"));
    assert_eq!(Err(ParseError::FactorExpected(4)), parse("1 + a"));
}

#[test]
fn a_group_has_to_be_closed() {
    assert_eq!(Err(ParseError::InvalidGroup(2)), parse("(1("));
    assert_eq!(Err(ParseError::UnexpectedEof), parse("(1"));
    assert_eq!(Err(ParseError::UnexpectedEof), parse("(1 + 2"));
}

#[test]
fn a_factor_has_to_follow_an_operator() {
    assert_eq!(Err(ParseError::FactorExpected(4)), parse("1 + *"));
    assert_eq!(Err(ParseError::FactorExpected(0)), parse(")"));
    assert_eq!(Err(ParseError::FactorExpected(1)), parse("()"));
    assert_eq!(Err(ParseError::UnexpectedEof), parse("1 +"));
    assert_eq!(Err(ParseError::UnexpectedEof), parse("-"));
    assert_eq!(Err(ParseError::UnexpectedEof), parse("("));
    assert_eq!(Err(ParseError::UnexpectedEof), parse(""));
}

#[test]
fn what_follows_an_expression_is_left_over() {
    assert_eq!(Err(ParseError::UnexpectedToken), parse("(1 + 2) 2"));
    assert_eq!(Err(ParseError::UnexpectedToken), parse("1 + 2)"));
}

#[test]
fn the_parser_hands_back_what_it_did_not_read() {
    let tokens: Vec<Token> = Scanner::new("(1 + 2) 2 3").collect();
    let partial = Parser::parse(&tokens).unwrap();
    assert_eq!(
        binary(3, Binary::Add, constant(1, 1), constant(5, 2)),
        partial.node
    );
    assert_eq!(&tokens[5..], partial.tokens);
    assert_eq!(
        vec![
            Token { kind: TokenKind::Digit(2), position: 8 },
            Token { kind: TokenKind::Digit(3), position: 10 },
        ],
        partial.tokens
    );
}

#[test]
fn the_parser_reads_tokens_wherever_they_come_from() {
    let tokens = vec![
        Token { kind: TokenKind::Digit(4), position: 10 },
        Token { kind: TokenKind::Digit(2), position: 20 },
        Token { kind: TokenKind::Star, position: 30 },
        Token { kind: TokenKind::Digit(2), position: 40 },
    ];
    let partial = Parser::parse(&tokens).unwrap();
    assert_eq!(
        binary(30, Binary::Multiply, constant(10, 42), constant(40, 2)),
        partial.node
    );
    assert!(partial.tokens.is_empty());
}

#[test]
fn literals_fit_up_to_sixty_four_bits() {
    let fits = |text: &str| literals_in_range(&Scanner::new(text).collect());
    assert!(fits(""));
    assert!(fits("1 + 2"));
    assert!(fits("18446744073709551615"));
    assert!(fits("00000000000000000000000000000000000001"));
    assert!(fits("(18446744073709551615 - 18446744073709551615)"));
    assert!(!fits("18446744073709551616"));
    assert!(!fits("1 + 99999999999999999999"));
    assert!(!fits("1844674407370955161 6"));
    assert!(!fits("184467440737095516150"));
}
