//! What it means for tokens to spell a tree, rule by rule, apart from how a
//! parser goes about reading them.

use crate::error::ParseError;
use crate::grammar::{
    digits_value, is_proper_suffix, lemma_expression_consumes, lemma_expression_of_digits,
    lemma_factor_consumes, lemma_leading_digits, lemma_leading_digits_are,
    lemma_literals_fit_rest, lemma_literals_fit_side_by_side, lemma_one_sign_fits,
    lemma_term_consumes, literals_fit, spec_expression, spec_factor, spec_integer, spec_term,
};
use crate::node::{Binary, BinaryOp, Node};
use crate::scanner::{Token, TokenKind};
use vstd::prelude::*;

verus! {

/// The token that an operator is written with.
pub open spec fn operator(op: Binary) -> TokenKind {
    match op {
        Binary::Add => TokenKind::Plus,
        Binary::Subtract => TokenKind::Minus,
        Binary::Multiply => TokenKind::Star,
        Binary::Divide => TokenKind::Solidus,
    }
}

/// The operators of the rule `term`; the others are those of `expression`.
pub open spec fn binds_tightly(op: Binary) -> bool {
    op is Multiply || op is Divide
}

/// The tokens are digits, one or more, that denote `value`.
pub open spec fn number_spells(tokens: Seq<Token>, value: u64) -> bool {
    &&& tokens.len() > 0
    &&& forall|i: int| 0 <= i < tokens.len() ==> (#[trigger] tokens[i]).kind is Digit
    &&& digits_value(tokens) == value
}

/// The token at `at` is the operator of `node`, at the position that is the
/// node's id.
pub open spec fn operator_at(tokens: Seq<Token>, at: int, node: BinaryOp) -> bool {
    0 < at < tokens.len() - 1 && tokens[at] == (Token {
        kind: operator(node.op),
        position: node.id,
    })
}

/// The tokens spell `node` by the rule `factor`: as a number, as a negation
/// of a factor, or as an expression in parentheses.
pub open spec fn factor_spells(tokens: Seq<Token>, node: Node) -> bool
    decreases tokens.len(), 0nat,
{
    if tokens.len() == 0 {
        false
    } else {
        match tokens[0].kind {
            TokenKind::Digit(_) => {
                &&& node matches Node::Constant(c)
                &&& c.id == tokens[0].position
                &&& number_spells(tokens, c.value)
            },
            TokenKind::Minus => {
                &&& node matches Node::Unary(u)
                &&& u.id == tokens[0].position
                &&& factor_spells(tokens.drop_first(), *u.operand)
            },
            TokenKind::LeftParen => {
                &&& tokens.len() >= 2
                &&& tokens.last().kind is RightParen
                &&& expression_spells(tokens.subrange(1, tokens.len() - 1), node)
            },
            _ => false,
        }
    }
}

/// The tokens spell `node` by the rule `term`: as a factor, or as a factor,
/// `*` or `/`, and a term.
pub open spec fn term_spells(tokens: Seq<Token>, node: Node) -> bool
    decreases tokens.len(), 1nat,
{
    ||| factor_spells(tokens, node)
    ||| {
        &&& node matches Node::Binary(b)
        &&& binds_tightly(b.op)
        &&& exists|at: int|
            {
                &&& #[trigger] operator_at(tokens, at, b)
                &&& factor_spells(tokens.take(at), *b.lhs)
                &&& term_spells(tokens.skip(at + 1), *b.rhs)
            }
    }
}

/// The tokens spell `node` by the rule `expression`: as a term, or as a
/// term, `+` or `-`, and an expression.
pub open spec fn expression_spells(tokens: Seq<Token>, node: Node) -> bool
    decreases tokens.len(), 2nat,
{
    ||| term_spells(tokens, node)
    ||| {
        &&& node matches Node::Binary(b)
        &&& !binds_tightly(b.op)
        &&& exists|at: int|
            {
                &&& #[trigger] operator_at(tokens, at, b)
                &&& term_spells(tokens.take(at), *b.lhs)
                &&& expression_spells(tokens.skip(at + 1), *b.rhs)
            }
    }
}

/// The tokens that a rule has read, given what it left.
pub open spec fn read(tokens: Seq<Token>, rest: Seq<Token>) -> Seq<Token> {
    tokens.take(tokens.len() - rest.len())
}

/// What the rule `factor` has read spells the tree that it built.
pub proof fn lemma_factor_is_sound(tokens: Seq<Token>)
    requires
        literals_fit(tokens),
    ensures
        spec_factor(tokens) matches Ok((node, rest)) ==> factor_spells(read(tokens, rest), node),
    decreases tokens.len(), 0nat,
{
    lemma_factor_consumes(tokens);
    lemma_leading_digits(tokens);
    if spec_integer(tokens) is Some {
        assert(tokens.skip(0) =~= tokens);
    } else if tokens.len() > 0 {
        let tail = tokens.drop_first();
        lemma_literals_fit_rest(tokens, tail);
        match tokens[0].kind {
            TokenKind::Minus => {
                lemma_factor_is_sound(tail);
                lemma_factor_consumes(tail);
                if let Ok((_, rest)) = spec_factor(tail) {
                    assert(read(tokens, rest).drop_first() =~= read(tail, rest));
                }
            },
            TokenKind::LeftParen => {
                lemma_expression_is_sound(tail);
                lemma_expression_consumes(tail);
                if let Ok((_, rest)) = spec_expression(tail) {
                    if rest.len() > 0 {
                        let all = read(tokens, rest.drop_first());
                        assert(all.subrange(1, all.len() - 1) =~= read(tail, rest));
                    }
                }
            },
            _ => {},
        }
    }
}

proof fn lemma_joined_is_sound(tokens: Seq<Token>, rest: Seq<Token>, left_over: Seq<Token>) -> (at:
    int)
    requires
        is_proper_suffix(rest, tokens),
        rest.len() > 0,
        is_proper_suffix(left_over, rest.drop_first()),
    ensures
        at == tokens.len() - rest.len(),
        0 < at < read(tokens, left_over).len() - 1,
        read(tokens, left_over)[at] == rest[0],
        read(tokens, left_over).take(at) == read(tokens, rest),
        read(tokens, left_over).skip(at + 1) == read(rest.drop_first(), left_over),
{
    tokens.len() - rest.len()
}

/// What the rule `term` has read spells the tree that it built.
pub proof fn lemma_term_is_sound(tokens: Seq<Token>)
    requires
        literals_fit(tokens),
    ensures
        spec_term(tokens) matches Ok((node, rest)) ==> term_spells(read(tokens, rest), node),
    decreases tokens.len(), 1nat,
{
    lemma_factor_is_sound(tokens);
    lemma_factor_consumes(tokens);
    if let Ok((lhs, rest)) = spec_factor(tokens) {
        if rest.len() > 0 && (rest[0].kind is Star || rest[0].kind is Solidus) {
            let tail = rest.drop_first();
            lemma_literals_fit_rest(tokens, rest);
            lemma_literals_fit_rest(rest, tail);
            lemma_term_is_sound(tail);
            lemma_term_consumes(tail);
            if let Ok((rhs, left_over)) = spec_term(tail) {
                let at = lemma_joined_is_sound(tokens, rest, left_over);
                let node = spec_term(tokens)->Ok_0.0;
                assert(operator_at(read(tokens, left_over), at, node->Binary_0));
            }
        }
    }
}

/// What the rule `expression` has read spells the tree that it built.
pub proof fn lemma_expression_is_sound(tokens: Seq<Token>)
    requires
        literals_fit(tokens),
    ensures
        spec_expression(tokens) matches Ok((node, rest)) ==> expression_spells(
            read(tokens, rest),
            node,
        ),
    decreases tokens.len(), 2nat,
{
    lemma_term_is_sound(tokens);
    lemma_term_consumes(tokens);
    if let Ok((lhs, rest)) = spec_term(tokens) {
        if rest.len() > 0 && (rest[0].kind is Plus || rest[0].kind is Minus) {
            let tail = rest.drop_first();
            lemma_literals_fit_rest(tokens, rest);
            lemma_literals_fit_rest(rest, tail);
            lemma_expression_is_sound(tail);
            lemma_expression_consumes(tail);
            if let Ok((rhs, left_over)) = spec_expression(tail) {
                let at = lemma_joined_is_sound(tokens, rest, left_over);
                let node = spec_expression(tokens)->Ok_0.0;
                assert(operator_at(read(tokens, left_over), at, node->Binary_0));
            }
        }
    }
}

/// What follows the tokens of a factor does not run on from them: a number
/// is not followed by a digit.
pub open spec fn ends_factor(tokens: Seq<Token>, rest: Seq<Token>) -> bool {
    rest.len() == 0 || !(tokens.last().kind is Digit && rest[0].kind is Digit)
}

/// What follows the tokens of a term does not run on from them.
pub open spec fn ends_term(tokens: Seq<Token>, rest: Seq<Token>) -> bool {
    &&& ends_factor(tokens, rest)
    &&& rest.len() == 0 || !(rest[0].kind is Star || rest[0].kind is Solidus || rest[0].kind
        is Unrecognized)
}

/// What follows the tokens of an expression does not run on from them.
pub open spec fn ends_expression(tokens: Seq<Token>, rest: Seq<Token>) -> bool {
    &&& ends_term(tokens, rest)
    &&& rest.len() == 0 || !(rest[0].kind is Plus || rest[0].kind is Minus)
}

/// Tokens that spell a tree as a factor are read as that tree, whatever
/// follows them that does not run on from them.
pub proof fn lemma_factor_is_complete(tokens: Seq<Token>, node: &Node, rest: Seq<Token>)
    requires
        factor_spells(tokens, *node),
        ends_factor(tokens, rest),
    ensures
        spec_factor(tokens + rest) == Ok::<(Node, Seq<Token>), ParseError>((*node, rest)),
    decreases tokens.len(), 0nat,
{
    let all = tokens + rest;
    match tokens[0].kind {
        TokenKind::Digit(_) => {
            lemma_leading_digits_are(all, tokens.len() as int);
            assert(all.take(tokens.len() as int) =~= tokens);
            assert(all.skip(tokens.len() as int) =~= rest);
        },
        TokenKind::Minus => {
            let tail = tokens.drop_first();
            lemma_leading_digits_are(all, 0);
            assert(all.drop_first() =~= tail + rest);
            lemma_factor_is_complete(tail, &*node->Unary_0.operand, rest);
        },
        TokenKind::LeftParen => {
            let inner = tokens.subrange(1, tokens.len() - 1);
            let after = seq![tokens.last()] + rest;
            lemma_leading_digits_are(all, 0);
            assert(all.drop_first() =~= inner + after);
            lemma_expression_is_complete(inner, node, after);
            assert(after.drop_first() =~= rest);
        },
        _ => {},
    }
}

/// Tokens that spell a tree as a term are read as that tree, whatever
/// follows them that does not run on from them.
pub proof fn lemma_term_is_complete(tokens: Seq<Token>, node: &Node, rest: Seq<Token>)
    requires
        term_spells(tokens, *node),
        ends_term(tokens, rest),
    ensures
        spec_term(tokens + rest) == Ok::<(Node, Seq<Token>), ParseError>((*node, rest)),
    decreases tokens.len(), 1nat,
{
    let all = tokens + rest;
    if factor_spells(tokens, *node) {
        lemma_factor_is_complete(tokens, node, rest);
    } else {
        let b = node->Binary_0;
        let at = choose|at: int|
            {
                &&& #[trigger] operator_at(tokens, at, b)
                &&& factor_spells(tokens.take(at), *b.lhs)
                &&& term_spells(tokens.skip(at + 1), *b.rhs)
            };
        let after = tokens.skip(at) + rest;
        assert(all =~= tokens.take(at) + after);
        lemma_factor_is_complete(tokens.take(at), &*b.lhs, after);
        assert(after.drop_first() =~= tokens.skip(at + 1) + rest);
        lemma_term_is_complete(tokens.skip(at + 1), &*b.rhs, rest);
    }
}

/// Tokens that spell a tree as an expression are read as that tree, whatever
/// follows them that does not run on from them.
pub proof fn lemma_expression_is_complete(tokens: Seq<Token>, node: &Node, rest: Seq<Token>)
    requires
        expression_spells(tokens, *node),
        ends_expression(tokens, rest),
    ensures
        spec_expression(tokens + rest) == Ok::<(Node, Seq<Token>), ParseError>((*node, rest)),
    decreases tokens.len(), 2nat,
{
    let all = tokens + rest;
    if term_spells(tokens, *node) {
        lemma_term_is_complete(tokens, node, rest);
    } else {
        let b = node->Binary_0;
        let at = choose|at: int|
            {
                &&& #[trigger] operator_at(tokens, at, b)
                &&& term_spells(tokens.take(at), *b.lhs)
                &&& expression_spells(tokens.skip(at + 1), *b.rhs)
            };
        let after = tokens.skip(at) + rest;
        assert(all =~= tokens.take(at) + after);
        lemma_term_is_complete(tokens.take(at), &*b.lhs, after);
        assert(after.drop_first() =~= tokens.skip(at + 1) + rest);
        lemma_expression_is_complete(tokens.skip(at + 1), &*b.rhs, rest);
    }
}

/// The numbers among tokens that spell a tree as a factor fit into
/// sixty-four bits.
pub proof fn lemma_factor_fits(tokens: Seq<Token>, node: &Node)
    requires
        factor_spells(tokens, *node),
    ensures
        literals_fit(tokens),
    decreases tokens.len(), 0nat,
{
    match tokens[0].kind {
        TokenKind::Digit(_) => {
            lemma_expression_of_digits(tokens);
        },
        TokenKind::Minus => {
            let tail = tokens.drop_first();
            lemma_factor_fits(tail, &*node->Unary_0.operand);
            lemma_one_sign_fits(tokens[0]);
            lemma_literals_fit_side_by_side(seq![tokens[0]], tail);
            assert(tokens =~= seq![tokens[0]] + tail);
        },
        TokenKind::LeftParen => {
            let inner = tokens.subrange(1, tokens.len() - 1);
            lemma_expression_fits(inner, node);
            lemma_one_sign_fits(tokens[0]);
            lemma_one_sign_fits(tokens.last());
            lemma_literals_fit_side_by_side(seq![tokens[0]], inner);
            lemma_literals_fit_side_by_side(seq![tokens[0]] + inner, seq![tokens.last()]);
            assert(tokens =~= seq![tokens[0]] + inner + seq![tokens.last()]);
        },
        _ => {},
    }
}

proof fn lemma_joined_fits(tokens: Seq<Token>, at: int)
    requires
        0 < at < tokens.len() - 1,
        !(tokens[at].kind is Digit),
        literals_fit(tokens.take(at)),
        literals_fit(tokens.skip(at + 1)),
    ensures
        literals_fit(tokens),
{
    let sign = seq![tokens[at]];
    lemma_one_sign_fits(tokens[at]);
    lemma_literals_fit_side_by_side(tokens.take(at), sign);
    lemma_literals_fit_side_by_side(tokens.take(at) + sign, tokens.skip(at + 1));
    assert(tokens =~= tokens.take(at) + sign + tokens.skip(at + 1));
}

/// The numbers among tokens that spell a tree as a term fit into sixty-four
/// bits.
pub proof fn lemma_term_fits(tokens: Seq<Token>, node: &Node)
    requires
        term_spells(tokens, *node),
    ensures
        literals_fit(tokens),
    decreases tokens.len(), 1nat,
{
    if factor_spells(tokens, *node) {
        lemma_factor_fits(tokens, node);
    } else {
        let b = node->Binary_0;
        let at = choose|at: int|
            {
                &&& #[trigger] operator_at(tokens, at, b)
                &&& factor_spells(tokens.take(at), *b.lhs)
                &&& term_spells(tokens.skip(at + 1), *b.rhs)
            };
        lemma_factor_fits(tokens.take(at), &*b.lhs);
        lemma_term_fits(tokens.skip(at + 1), &*b.rhs);
        lemma_joined_fits(tokens, at);
    }
}

/// The numbers among tokens that spell a tree fit into sixty-four bits.
pub proof fn lemma_expression_fits(tokens: Seq<Token>, node: &Node)
    requires
        expression_spells(tokens, *node),
    ensures
        literals_fit(tokens),
    decreases tokens.len(), 2nat,
{
    if term_spells(tokens, *node) {
        lemma_term_fits(tokens, node);
    } else {
        let b = node->Binary_0;
        let at = choose|at: int|
            {
                &&& #[trigger] operator_at(tokens, at, b)
                &&& term_spells(tokens.take(at), *b.lhs)
                &&& expression_spells(tokens.skip(at + 1), *b.rhs)
            };
        lemma_term_fits(tokens.take(at), &*b.lhs);
        lemma_expression_fits(tokens.skip(at + 1), &*b.rhs);
        lemma_joined_fits(tokens, at);
    }
}

/// The parser reads tokens as a tree, and leaves none, exactly where the
/// tokens spell the tree; the numbers among such tokens fit into sixty-four
/// bits.
pub proof fn lemma_parser_reads_what_is_spelled(tokens: Seq<Token>, node: &Node)
    ensures
        expression_spells(tokens, *node) <==> literals_fit(tokens) && spec_expression(tokens)
            == Ok::<(Node, Seq<Token>), ParseError>((*node, Seq::empty())),
{
    if expression_spells(tokens, *node) {
        lemma_expression_fits(tokens, node);
        lemma_expression_is_complete(tokens, node, Seq::empty());
    }
    if literals_fit(tokens) {
        lemma_expression_is_sound(tokens);
        assert(read(tokens, Seq::empty()) =~= tokens);
    }
}

} // verus!
