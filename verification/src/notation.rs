//! How a tree is written in tokens. Every tree can be written so that the
//! parser reads it back: each operand in a group of its own, each node's id
//! as the position of the token that the node is made for.

use crate::error::ParseError;
use crate::grammar::{digits_value, literals_fit, spec_expression};
use crate::node::Node;
use crate::scanner::{Token, TokenKind};
use crate::spelling::{
    binds_tightly, expression_spells, factor_spells, lemma_parser_reads_what_is_spelled,
    operator, operator_at, term_spells,
};
use vstd::prelude::*;

verus! {

/// The digits of a number in base ten, each at the same position.
pub open spec fn numeral(position: usize, value: nat) -> Seq<Token>
    decreases value,
{
    if value < 10 {
        seq![Token { kind: TokenKind::Digit(value as u32), position }]
    } else {
        numeral(position, value / 10).push(
            Token { kind: TokenKind::Digit((value % 10) as u32), position },
        )
    }
}

/// Tokens between a pair of parentheses.
pub open spec fn grouped(tokens: Seq<Token>) -> Seq<Token> {
    seq![Token { kind: TokenKind::LeftParen, position: 0 }] + tokens + seq![
        Token { kind: TokenKind::RightParen, position: 0 },
    ]
}

/// A tree in tokens: a constant as its digits, an operator between or before
/// its operands, every operand in a group.
pub open spec fn written(node: &Node) -> Seq<Token>
    decreases node,
{
    match node {
        Node::Binary(b) => grouped(written(&*b.lhs)) + seq![
            Token { kind: operator(b.op), position: b.id },
        ] + grouped(written(&*b.rhs)),
        Node::Unary(u) => seq![Token { kind: TokenKind::Minus, position: u.id }] + grouped(
            written(&*u.operand),
        ),
        Node::Constant(c) => numeral(c.id, c.value as nat),
    }
}

/// The digits of a number denote the number.
pub proof fn lemma_numeral_denotes(position: usize, value: nat)
    ensures
        numeral(position, value).len() > 0,
        forall|i: int|
            0 <= i < numeral(position, value).len() ==> {
                let token = #[trigger] numeral(position, value)[i];
                token.kind is Digit && token.position == position
            },
        digits_value(numeral(position, value)) == value,
    decreases value,
{
    if value < 10 {
        assert(numeral(position, value).drop_last() =~= Seq::<Token>::empty());
        assert(digits_value(Seq::<Token>::empty()) == 0);
    } else {
        lemma_numeral_denotes(position, value / 10);
        assert(numeral(position, value).drop_last() =~= numeral(position, value / 10));
    }
}

proof fn lemma_group_spells(tokens: Seq<Token>, node: &Node)
    requires
        expression_spells(tokens, *node),
    ensures
        factor_spells(grouped(tokens), *node),
        term_spells(grouped(tokens), *node),
        expression_spells(grouped(tokens), *node),
{
    let group = grouped(tokens);
    assert(group.subrange(1, group.len() - 1) =~= tokens);
    assert(factor_spells(group, *node));
    assert(term_spells(group, *node));
}

/// A written tree spells the tree.
pub proof fn lemma_written_spells(node: &Node)
    ensures
        expression_spells(written(node), *node),
    decreases node,
{
    let tokens = written(node);
    match node {
        Node::Binary(b) => {
            let left = grouped(written(&*b.lhs));
            let right = grouped(written(&*b.rhs));
            lemma_written_spells(&*b.lhs);
            lemma_written_spells(&*b.rhs);
            lemma_group_spells(written(&*b.lhs), &*b.lhs);
            lemma_group_spells(written(&*b.rhs), &*b.rhs);
            assert(tokens.take(left.len() as int) =~= left);
            assert(tokens.skip(left.len() as int + 1) =~= right);
            assert(operator_at(tokens, left.len() as int, *b));
            if binds_tightly(b.op) {
                assert(term_spells(tokens, *node));
            }
        },
        Node::Unary(u) => {
            lemma_written_spells(&*u.operand);
            lemma_group_spells(written(&*u.operand), &*u.operand);
            assert(tokens.drop_first() =~= grouped(written(&*u.operand)));
            assert(factor_spells(tokens, *node));
            assert(term_spells(tokens, *node));
        },
        Node::Constant(c) => {
            lemma_numeral_denotes(c.id, c.value as nat);
            assert(factor_spells(tokens, *node));
            assert(term_spells(tokens, *node));
        },
    }
}

/// The parser reads every tree back from the tokens that the tree is written
/// with, and leaves nothing; the numbers among those tokens fit into
/// sixty-four bits.
pub proof fn lemma_written_is_read_back(node: &Node)
    ensures
        literals_fit(written(node)),
        spec_expression(written(node)) == Ok::<(Node, Seq<Token>), ParseError>(
            (*node, Seq::empty()),
        ),
{
    lemma_written_spells(node);
    lemma_parser_reads_what_is_spelled(written(node), node);
}

} // verus!
