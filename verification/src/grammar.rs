//! The grammar, as functions from tokens to what the rules make of them, and
//! what holds of those functions.
//!
//! ```text
//! expression := term ( ('+' | '-') expression )?
//! term       := factor ( ('*' | '/') term )?
//! factor     := integer | '-' factor | '(' expression ')'
//! integer    := one or more digits
//! ```
//!
//! What follows an operator is read by the same rule again, so a chain of
//! operators of one rank groups to the right: `8 - 3 - 2` is `8 - (3 - 2)`.

use crate::error::ParseError;
use crate::node::{lemma_ids_rise_wider, Binary, BinaryOp, Constant, Node, Unary, UnaryOp};
use crate::scanner::{positions_rise, Token, TokenKind};
use std::rc::Rc;
use vstd::prelude::*;

verus! {

/// What a rule makes of a sequence of tokens: a tree and the tokens left
/// over, or the first error.
pub type Parsed = Result<(Node, Seq<Token>), ParseError>;

/// How many digits stand at the front of `tokens`.
pub open spec fn leading_digits(tokens: Seq<Token>) -> nat
    decreases tokens.len(),
{
    if tokens.len() > 0 && tokens[0].kind is Digit {
        1 + leading_digits(tokens.drop_first())
    } else {
        0
    }
}

/// The number that a sequence of digits denotes in base ten, the most
/// significant digit first.
pub open spec fn digits_value(digits: Seq<Token>) -> nat
    decreases digits.len(),
{
    if digits.len() == 0 {
        0
    } else {
        10 * digits_value(digits.drop_last()) + digits.last().kind.spec_value() as nat
    }
}

/// The number that the digits at the front of `tokens` denote.
pub open spec fn leading_value(tokens: Seq<Token>) -> nat {
    digits_value(tokens.take(leading_digits(tokens) as int))
}

/// Every run of digits denotes a number that sixty-four bits can hold.
pub open spec fn literals_fit(tokens: Seq<Token>) -> bool {
    forall|k: int| 0 <= k <= tokens.len() ==> #[trigger] leading_value(tokens.skip(k)) <= u64::MAX
}

/// `rest` is what is left of `tokens` once one token or more is taken from
/// its front.
pub open spec fn is_proper_suffix(rest: Seq<Token>, tokens: Seq<Token>) -> bool {
    rest.len() < tokens.len() && rest == tokens.skip(tokens.len() - rest.len())
}

/// The rule `integer`: the longest run of digits at the front, as one
/// constant that takes the position of the first digit.
pub open spec fn spec_integer(tokens: Seq<Token>) -> Option<(Node, Seq<Token>)> {
    let count = leading_digits(tokens) as int;
    if count == 0 {
        None
    } else {
        Some(
            (
                Node::Constant(
                    Constant { id: tokens[0].position, value: leading_value(tokens) as u64 },
                ),
                tokens.skip(count),
            ),
        )
    }
}

/// The rule `factor`.
pub open spec fn spec_factor(tokens: Seq<Token>) -> Parsed
    decreases tokens.len(), 0nat,
{
    if let Some(integer) = spec_integer(tokens) {
        Ok(integer)
    } else if tokens.len() == 0 {
        Err(ParseError::UnexpectedEof)
    } else {
        let token = tokens[0];
        match token.kind {
            TokenKind::Minus => match spec_factor(tokens.drop_first()) {
                Ok((operand, rest)) => Ok(
                    (
                        Node::Unary(
                            UnaryOp {
                                id: token.position,
                                op: Unary::Negate,
                                operand: Rc::new(operand),
                            },
                        ),
                        rest,
                    ),
                ),
                Err(error) => Err(error),
            },
            TokenKind::LeftParen => match spec_expression(tokens.drop_first()) {
                Ok((inner, rest)) => if rest.len() == 0 {
                    Err(ParseError::UnexpectedEof)
                } else if rest[0].kind is RightParen {
                    Ok((inner, rest.drop_first()))
                } else {
                    Err(ParseError::InvalidGroup(rest[0].position))
                },
                Err(error) => Err(error),
            },
            _ => Err(ParseError::FactorExpected(token.position)),
        }
    }
}

/// What a rule makes of its left operand `lhs` and of the tokens `rest` that
/// follow it, when `rest` starts with the operator `op` and the right operand
/// is read as `right`.
pub open spec fn joined(op: Binary, lhs: Node, rest: Seq<Token>, right: Parsed) -> Parsed {
    match right {
        Ok((rhs, left_over)) => Ok(
            (
                Node::Binary(
                    BinaryOp { id: rest[0].position, op, lhs: Rc::new(lhs), rhs: Rc::new(rhs) },
                ),
                left_over,
            ),
        ),
        Err(error) => Err(error),
    }
}

/// The rule `term`. (A factor leaves less than it was given, see
/// `lemma_factor_consumes`; the rule asks for it so that its definition is
/// well founded.)
pub open spec fn spec_term(tokens: Seq<Token>) -> Parsed
    decreases tokens.len(), 1nat,
{
    match spec_factor(tokens) {
        Ok((lhs, rest)) => if rest.len() == 0 || rest.len() > tokens.len() {
            Ok((lhs, rest))
        } else {
            match rest[0].kind {
                TokenKind::Star => joined(Binary::Multiply, lhs, rest, spec_term(rest.drop_first())),
                TokenKind::Solidus => joined(
                    Binary::Divide,
                    lhs,
                    rest,
                    spec_term(rest.drop_first()),
                ),
                TokenKind::Unrecognized(_) => Err(ParseError::InvalidToken(rest[0].position)),
                _ => Ok((lhs, rest)),
            }
        },
        Err(error) => Err(error),
    }
}

/// The rule `expression`. (A term leaves less than it was given, see
/// `lemma_term_consumes`; the rule asks for it so that its definition is
/// well founded.)
pub open spec fn spec_expression(tokens: Seq<Token>) -> Parsed
    decreases tokens.len(), 2nat,
{
    match spec_term(tokens) {
        Ok((lhs, rest)) => if rest.len() == 0 || rest.len() > tokens.len() {
            Ok((lhs, rest))
        } else {
            match rest[0].kind {
                TokenKind::Plus => joined(
                    Binary::Add,
                    lhs,
                    rest,
                    spec_expression(rest.drop_first()),
                ),
                TokenKind::Minus => joined(
                    Binary::Subtract,
                    lhs,
                    rest,
                    spec_expression(rest.drop_first()),
                ),
                TokenKind::Unrecognized(_) => Err(ParseError::InvalidToken(rest[0].position)),
                _ => Ok((lhs, rest)),
            }
        },
        Err(error) => Err(error),
    }
}

/// The digits at the front of `tokens` are digits, and what follows them is
/// none.
pub proof fn lemma_leading_digits(tokens: Seq<Token>)
    ensures
        leading_digits(tokens) <= tokens.len(),
        forall|i: int| 0 <= i < leading_digits(tokens) ==> (#[trigger] tokens[i]).kind is Digit,
        leading_digits(tokens) < tokens.len() ==> !(tokens[leading_digits(tokens) as int].kind
            is Digit),
    decreases tokens.len(),
{
    if tokens.len() > 0 && tokens[0].kind is Digit {
        let tail = tokens.drop_first();
        lemma_leading_digits(tail);
        assert forall|i: int| 0 <= i < leading_digits(tokens) implies (#[trigger] tokens[i]).kind
            is Digit by {
            if i > 0 {
                assert(tokens[i] == tail[i - 1]);
            }
        }
    }
}

/// The digits at the front are as many as there are digits before the first
/// token that is none.
pub proof fn lemma_leading_digits_are(tokens: Seq<Token>, count: int)
    requires
        0 <= count <= tokens.len(),
        forall|i: int| 0 <= i < count ==> (#[trigger] tokens[i]).kind is Digit,
        count < tokens.len() ==> !(tokens[count].kind is Digit),
    ensures
        leading_digits(tokens) == count,
{
    lemma_leading_digits(tokens);
}

/// A number is no smaller than the number that its first digits denote.
pub proof fn lemma_digits_value_grows(digits: Seq<Token>, shorter: int, longer: int)
    requires
        0 <= shorter <= longer <= digits.len(),
    ensures
        digits_value(digits.take(shorter)) <= digits_value(digits.take(longer)),
    decreases longer - shorter,
{
    if shorter < longer {
        lemma_digits_value_grows(digits, shorter, longer - 1);
        assert(digits.take(longer).drop_last() =~= digits.take(longer - 1));
    }
}

/// Where every run of digits fits, so does every run of what is left after
/// some tokens.
pub proof fn lemma_literals_fit_rest(tokens: Seq<Token>, rest: Seq<Token>)
    requires
        literals_fit(tokens),
        rest.len() <= tokens.len(),
        rest == tokens.skip(tokens.len() - rest.len()),
    ensures
        literals_fit(rest),
{
    let from = tokens.len() - rest.len();
    assert forall|k: int| 0 <= k <= rest.len() implies #[trigger] leading_value(rest.skip(k))
        <= u64::MAX by {
        assert(rest.skip(k) =~= tokens.skip(from + k));
    }
}

/// A number is no smaller than the number that its last digits denote.
pub proof fn lemma_digits_value_of_rest(digits: Seq<Token>, from: int)
    requires
        0 <= from <= digits.len(),
    ensures
        digits_value(digits.skip(from)) <= digits_value(digits),
    decreases digits.len(),
{
    if from < digits.len() {
        lemma_digits_value_of_rest(digits.drop_last(), from);
        assert(digits.skip(from).drop_last() =~= digits.drop_last().skip(from));
    }
}

/// Where a whole run of digits denotes a number that fits, so does what is
/// left of the run after some of its digits.
pub proof fn lemma_run_fits(tokens: Seq<Token>, start: int, end: int)
    requires
        0 <= start <= end <= tokens.len(),
        forall|i: int| start <= i < end ==> (#[trigger] tokens[i]).kind is Digit,
        end < tokens.len() ==> !(tokens[end].kind is Digit),
        digits_value(tokens.subrange(start, end)) <= u64::MAX,
    ensures
        forall|k: int| start <= k <= end ==> #[trigger] leading_value(tokens.skip(k)) <= u64::MAX,
{
    let run = tokens.subrange(start, end);
    assert forall|k: int| start <= k <= end implies #[trigger] leading_value(tokens.skip(k))
        <= u64::MAX by {
        let rest = tokens.skip(k);
        lemma_leading_digits_are(rest, end - k);
        assert(rest.take(end - k) =~= run.skip(k - start));
        lemma_digits_value_of_rest(run, k - start);
    }
}

/// Where the first digits of a run denote a number that does not fit, the
/// numbers of the tokens do not fit.
pub proof fn lemma_number_too_large(tokens: Seq<Token>, start: int, end: int)
    requires
        0 <= start <= end <= tokens.len(),
        forall|i: int| start <= i < end ==> (#[trigger] tokens[i]).kind is Digit,
        digits_value(tokens.subrange(start, end)) > u64::MAX,
    ensures
        !literals_fit(tokens),
{
    let rest = tokens.skip(start);
    let count = leading_digits(rest) as int;
    lemma_leading_digits(rest);
    lemma_digits_value_grows(rest.take(count), end - start, count);
    assert(rest.take(count).take(end - start) =~= tokens.subrange(start, end));
    assert(rest.take(count).take(count) =~= rest.take(count));
    assert(leading_value(rest) > u64::MAX);
}

/// Tokens that are all digits are read as one number that takes the position
/// of the first, and they fit where that number fits.
pub proof fn lemma_expression_of_digits(tokens: Seq<Token>)
    requires
        tokens.len() > 0,
        forall|i: int| 0 <= i < tokens.len() ==> (#[trigger] tokens[i]).kind is Digit,
    ensures
        spec_expression(tokens) == Ok::<(Node, Seq<Token>), ParseError>(
            (
                Node::Constant(
                    Constant { id: tokens[0].position, value: digits_value(tokens) as u64 },
                ),
                Seq::empty(),
            ),
        ),
        digits_value(tokens) <= u64::MAX ==> literals_fit(tokens),
{
    lemma_leading_digits(tokens);
    assert(tokens.take(tokens.len() as int) =~= tokens);
    assert(tokens.skip(tokens.len() as int) =~= Seq::<Token>::empty());
    assert(spec_factor(tokens) == spec_term(tokens));
    if digits_value(tokens) <= u64::MAX {
        assert forall|k: int| 0 <= k <= tokens.len() implies #[trigger] leading_value(
            tokens.skip(k),
        ) <= u64::MAX by {
            let rest = tokens.skip(k);
            lemma_leading_digits(rest);
            assert(rest.take(rest.len() as int) =~= rest);
            lemma_digits_value_of_rest(tokens, k);
        }
    }
}

/// Two sequences whose numbers fit make one whose numbers fit, where no
/// number runs from the one into the other.
pub proof fn lemma_literals_fit_side_by_side(front: Seq<Token>, back: Seq<Token>)
    requires
        literals_fit(front),
        literals_fit(back),
        front.len() == 0 || back.len() == 0 || !(front.last().kind is Digit) || !(back[0].kind
            is Digit),
    ensures
        literals_fit(front + back),
{
    let tokens = front + back;
    assert forall|k: int| 0 <= k <= tokens.len() implies #[trigger] leading_value(tokens.skip(k))
        <= u64::MAX by {
        if k >= front.len() {
            assert(tokens.skip(k) =~= back.skip(k - front.len()));
        } else {
            let near = front.skip(k);
            let all = tokens.skip(k);
            let count = leading_digits(near) as int;
            lemma_leading_digits(near);
            assert forall|i: int| 0 <= i < count implies (#[trigger] all[i]).kind is Digit by {
                assert(all[i] == near[i]);
            }
            lemma_leading_digits_are(all, count);
            assert(all.take(count) =~= near.take(count));
            assert(leading_value(near) <= u64::MAX);
        }
    }
}

/// A token that is no digit holds no number that could fail to fit.
pub proof fn lemma_one_sign_fits(token: Token)
    requires
        !(token.kind is Digit),
    ensures
        literals_fit(seq![token]),
{
    let tokens = seq![token];
    assert forall|k: int| 0 <= k <= tokens.len() implies #[trigger] leading_value(tokens.skip(k))
        <= u64::MAX by {
        let rest = tokens.skip(k);
        lemma_leading_digits_are(rest, 0);
    }
}

proof fn lemma_suffix_of_suffix(inner: Seq<Token>, middle: Seq<Token>, tokens: Seq<Token>)
    requires
        inner.len() <= middle.len() <= tokens.len(),
        inner == middle.skip(middle.len() - inner.len()),
        middle == tokens.skip(tokens.len() - middle.len()),
    ensures
        inner == tokens.skip(tokens.len() - inner.len()),
{
}

/// A factor takes at least one token and leaves the rest of its input.
pub proof fn lemma_factor_consumes(tokens: Seq<Token>)
    ensures
        spec_factor(tokens) matches Ok((_, rest)) ==> is_proper_suffix(rest, tokens),
    decreases tokens.len(), 0nat,
{
    lemma_leading_digits(tokens);
    if spec_integer(tokens) is None && tokens.len() > 0 {
        let tail = tokens.drop_first();
        match tokens[0].kind {
            TokenKind::Minus => {
                lemma_factor_consumes(tail);
                if let Ok((_, rest)) = spec_factor(tail) {
                    lemma_suffix_of_suffix(rest, tail, tokens);
                }
            },
            TokenKind::LeftParen => {
                lemma_expression_consumes(tail);
                if let Ok((_, rest)) = spec_expression(tail) {
                    if rest.len() > 0 {
                        lemma_suffix_of_suffix(rest, tail, tokens);
                        lemma_suffix_of_suffix(rest.drop_first(), rest, tokens);
                    }
                }
            },
            _ => {},
        }
    }
}

/// A term takes at least one token and leaves the rest of its input.
pub proof fn lemma_term_consumes(tokens: Seq<Token>)
    ensures
        spec_term(tokens) matches Ok((_, rest)) ==> is_proper_suffix(rest, tokens),
    decreases tokens.len(), 1nat,
{
    lemma_factor_consumes(tokens);
    if let Ok((_, rest)) = spec_factor(tokens) {
        if rest.len() > 0 {
            let tail = rest.drop_first();
            lemma_suffix_of_suffix(tail, rest, tokens);
            lemma_term_consumes(tail);
            if let Ok((_, left_over)) = spec_term(tail) {
                lemma_suffix_of_suffix(left_over, tail, tokens);
            }
        }
    }
}

/// An expression takes at least one token and leaves the rest of its input.
pub proof fn lemma_expression_consumes(tokens: Seq<Token>)
    ensures
        spec_expression(tokens) matches Ok((_, rest)) ==> is_proper_suffix(rest, tokens),
    decreases tokens.len(), 2nat,
{
    lemma_term_consumes(tokens);
    if let Ok((_, rest)) = spec_term(tokens) {
        if rest.len() > 0 {
            let tail = rest.drop_first();
            lemma_suffix_of_suffix(tail, rest, tokens);
            lemma_expression_consumes(tail);
            if let Ok((_, left_over)) = spec_expression(tail) {
                lemma_suffix_of_suffix(left_over, tail, tokens);
            }
        }
    }
}

/// `rest` is what a rule left of `tokens`, and the ids of `node` rise from
/// left to right between the positions of the first and of the last token
/// that the rule took.
pub open spec fn takes_ids_in_order(node: Node, rest: Seq<Token>, tokens: Seq<Token>) -> bool {
    &&& is_proper_suffix(rest, tokens)
    &&& node.ids_rise(
        tokens[0].position as int,
        tokens[tokens.len() - rest.len() - 1].position as int,
    )
}

proof fn lemma_positions_rise_in_rest(tokens: Seq<Token>, rest: Seq<Token>)
    requires
        positions_rise(tokens),
        rest.len() <= tokens.len(),
        rest == tokens.skip(tokens.len() - rest.len()),
    ensures
        positions_rise(rest),
        forall|i: int| 0 <= i < rest.len() ==> rest[i] == tokens[tokens.len() - rest.len() + i],
{
}

/// A factor takes the ids of its nodes from the tokens it reads, in their
/// order.
pub proof fn lemma_factor_ids(tokens: Seq<Token>)
    requires
        positions_rise(tokens),
    ensures
        spec_factor(tokens) matches Ok((node, rest)) ==> takes_ids_in_order(node, rest, tokens),
    decreases tokens.len(), 0nat,
{
    lemma_factor_consumes(tokens);
    lemma_leading_digits(tokens);
    if spec_integer(tokens) is None && tokens.len() > 0 {
        let tail = tokens.drop_first();
        lemma_positions_rise_in_rest(tokens, tail);
        match tokens[0].kind {
            TokenKind::Minus => {
                lemma_factor_ids(tail);
                if let Ok((operand, rest)) = spec_factor(tail) {
                    let last = tokens.len() - rest.len() - 1;
                    lemma_ids_rise_wider(
                        &operand,
                        tail[0].position as int,
                        tokens[last].position as int,
                        tokens[0].position + 1,
                        tokens[last].position as int,
                    );
                }
            },
            TokenKind::LeftParen => {
                lemma_expression_ids(tail);
                if let Ok((inner, rest)) = spec_expression(tail) {
                    if rest.len() > 0 {
                        let last = tokens.len() - rest.len();
                        lemma_ids_rise_wider(
                            &inner,
                            tail[0].position as int,
                            tokens[last - 1].position as int,
                            tokens[0].position as int,
                            tokens[last].position as int,
                        );
                    }
                }
            },
            _ => {},
        }
    }
}

proof fn lemma_joined_ids(
    op: Binary,
    lhs: Node,
    rest: Seq<Token>,
    right: Parsed,
    tokens: Seq<Token>,
)
    requires
        positions_rise(tokens),
        takes_ids_in_order(lhs, rest, tokens),
        rest.len() > 0,
        right matches Ok((rhs, left_over)) ==> takes_ids_in_order(
            rhs,
            left_over,
            rest.drop_first(),
        ),
    ensures
        joined(op, lhs, rest, right) matches Ok((node, left_over)) ==> takes_ids_in_order(
            node,
            left_over,
            tokens,
        ),
{
    if let Ok((rhs, left_over)) = right {
        let tail = rest.drop_first();
        let at = tokens.len() - rest.len();
        let last = tokens.len() - left_over.len() - 1;
        lemma_positions_rise_in_rest(tokens, rest);
        lemma_suffix_of_suffix(tail, rest, tokens);
        lemma_positions_rise_in_rest(tokens, tail);
        lemma_suffix_of_suffix(left_over, tail, tokens);
        lemma_ids_rise_wider(
            &lhs,
            tokens[0].position as int,
            tokens[at - 1].position as int,
            tokens[0].position as int,
            tokens[at].position - 1,
        );
        lemma_ids_rise_wider(
            &rhs,
            tail[0].position as int,
            tokens[last].position as int,
            tokens[at].position + 1,
            tokens[last].position as int,
        );
    }
}

/// A term takes the ids of its nodes from the tokens it reads, in their
/// order.
pub proof fn lemma_term_ids(tokens: Seq<Token>)
    requires
        positions_rise(tokens),
    ensures
        spec_term(tokens) matches Ok((node, rest)) ==> takes_ids_in_order(node, rest, tokens),
    decreases tokens.len(), 1nat,
{
    lemma_factor_ids(tokens);
    if let Ok((lhs, rest)) = spec_factor(tokens) {
        if rest.len() > 0 {
            let tail = rest.drop_first();
            lemma_suffix_of_suffix(tail, rest, tokens);
            lemma_positions_rise_in_rest(tokens, tail);
            lemma_term_ids(tail);
            lemma_joined_ids(Binary::Multiply, lhs, rest, spec_term(tail), tokens);
            lemma_joined_ids(Binary::Divide, lhs, rest, spec_term(tail), tokens);
        }
    }
}

/// An expression takes the ids of its nodes from the tokens it reads, in
/// their order.
pub proof fn lemma_expression_ids(tokens: Seq<Token>)
    requires
        positions_rise(tokens),
    ensures
        spec_expression(tokens) matches Ok((node, rest)) ==> takes_ids_in_order(
            node,
            rest,
            tokens,
        ),
    decreases tokens.len(), 2nat,
{
    lemma_term_ids(tokens);
    if let Ok((lhs, rest)) = spec_term(tokens) {
        if rest.len() > 0 {
            let tail = rest.drop_first();
            lemma_suffix_of_suffix(tail, rest, tokens);
            lemma_positions_rise_in_rest(tokens, tail);
            lemma_expression_ids(tail);
            lemma_joined_ids(Binary::Add, lhs, rest, spec_expression(tail), tokens);
            lemma_joined_ids(Binary::Subtract, lhs, rest, spec_expression(tail), tokens);
        }
    }
}

} // verus!
