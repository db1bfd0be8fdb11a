//! The parser: from tokens to a syntax tree, by recursive descent along the
//! rules of the grammar.

use crate::error::ParseError;
use crate::grammar::{
    digits_value, is_proper_suffix, leading_value, lemma_expression_consumes,
    lemma_factor_consumes, lemma_leading_digits_are, lemma_literals_fit_rest,
    lemma_number_too_large, lemma_run_fits, lemma_term_consumes, literals_fit, spec_expression,
    spec_factor, spec_integer, spec_term, Parsed,
};
use crate::node::{BinaryOp, Constant, Node, UnaryOp};
use crate::scanner::{Token, TokenKind};
use crate::spelling::{expression_spells, lemma_expression_is_sound, read};
use std::rc::Rc;
use vstd::prelude::*;
use vstd::slice::slice_subrange;

verus! {

/// What one rule has read: the tree it built and the tokens it left.
pub struct Partial<'a> {
    pub node: Rc<Node>,
    pub tokens: &'a [Token],
}

impl<'a> View for Partial<'a> {
    type V = (Node, Seq<Token>);

    open spec fn view(&self) -> (Node, Seq<Token>) {
        (*self.node, self.tokens@)
    }
}

/// The parser of token sequences.
pub struct Parser;

/// What a call returned, as a rule's result.
pub open spec fn outcome(result: Result<Partial, ParseError>) -> Parsed {
    match result {
        Ok(partial) => Ok(partial@),
        Err(error) => Err(error),
    }
}

/// Tells whether every run of digits in `tokens` denotes a number that
/// sixty-four bits can hold.
pub fn literals_in_range(tokens: &[Token]) -> (fit: bool)
    ensures
        fit == literals_fit(tokens@),
{
    let mut start: usize = 0;
    while start < tokens.len()
        invariant
            start <= tokens@.len(),
            forall|k: int| 0 <= k < start ==> #[trigger] leading_value(tokens@.skip(k)) <= u64::MAX,
        decreases tokens@.len() - start,
    {
        let mut end: usize = start;
        let mut sum: u64 = 0;
        while end < tokens.len() && tokens[end].kind.is_digit()
            invariant
                start <= end <= tokens@.len(),
                forall|i: int| start <= i < end ==> (#[trigger] tokens@[i]).kind is Digit,
                sum == digits_value(tokens@.subrange(start as int, end as int)),
            decreases tokens@.len() - end,
        {
            let digit = tokens[end].kind.value();
            proof {
                assert(tokens@.subrange(start as int, end + 1).drop_last() =~= tokens@.subrange(
                    start as int,
                    end as int,
                ));
            }
            if sum > (u64::MAX - digit) / 10 {
                proof {
                    lemma_number_too_large(tokens@, start as int, end + 1);
                }
                return false;
            }
            sum = sum * 10 + digit;
            end = end + 1;
        }
        proof {
            lemma_run_fits(tokens@, start as int, end as int);
        }
        start = if end < tokens.len() {
            end + 1
        } else {
            end
        };
    }
    proof {
        lemma_run_fits(tokens@, tokens@.len() as int, tokens@.len() as int);
    }
    true
}

fn split_first<'a>(tokens: &'a [Token]) -> (parts: Option<(&'a Token, &'a [Token])>)
    ensures
        match parts {
            Some((first, rest)) => tokens@.len() > 0 && *first == tokens@[0] && rest@
                == tokens@.drop_first(),
            None => tokens@.len() == 0,
        },
{
    if tokens.len() == 0 {
        None
    } else {
        Some((&tokens[0], slice_subrange(tokens, 1, tokens.len())))
    }
}

fn integer<'a>(tokens: &'a [Token]) -> (found: Option<Partial<'a>>)
    requires
        literals_fit(tokens@),
    ensures
        match found {
            Some(partial) => spec_integer(tokens@) == Some(partial@),
            None => spec_integer(tokens@) is None,
        },
{
    let mut count: usize = 0;
    let mut sum: u64 = 0;
    while count < tokens.len() && tokens[count].kind.is_digit()
        invariant
            count <= tokens@.len(),
            forall|i: int| 0 <= i < count ==> (#[trigger] tokens@[i]).kind is Digit,
            sum == digits_value(tokens@.take(count as int)),
            literals_fit(tokens@),
        decreases tokens@.len() - count,
    {
        let digit = tokens[count].kind.value();
        proof {
            assert(tokens@.take(count + 1).drop_last() =~= tokens@.take(count as int));
            if 10 * sum + digit > u64::MAX {
                lemma_number_too_large(tokens@, 0, count + 1);
            }
        }
        sum = sum * 10 + digit;
        count = count + 1;
    }
    proof {
        lemma_leading_digits_are(tokens@, count as int);
    }
    if count == 0 {
        None
    } else {
        Some(
            Partial {
                node: Rc::new(Node::Constant(Constant::new(tokens[0].position, sum))),
                tokens: slice_subrange(tokens, count, tokens.len()),
            },
        )
    }
}

fn factor<'a>(tokens: &'a [Token]) -> (result: Result<Partial<'a>, ParseError>)
    requires
        literals_fit(tokens@),
    ensures
        outcome(result) == spec_factor(tokens@),
    decreases tokens@.len(), 0nat,
{
    if let Some(integer) = integer(tokens) {
        return Ok(integer);
    }
    match split_first(tokens) {
        Some((token, tail)) => {
            proof {
                lemma_literals_fit_rest(tokens@, tail@);
            }
            match token.kind {
                TokenKind::Minus => {
                    let factor = factor(tail)?;
                    Ok(
                        Partial {
                            node: Rc::new(Node::Unary(UnaryOp::negate(token.position, factor.node))),
                            tokens: factor.tokens,
                        },
                    )
                },
                TokenKind::LeftParen => {
                    let expr = expression(tail)?;
                    match split_first(expr.tokens) {
                        Some((token, rest)) => match token.kind {
                            TokenKind::RightParen => Ok(Partial { node: expr.node, tokens: rest }),
                            _ => Err(ParseError::InvalidGroup(token.position)),
                        },
                        None => Err(ParseError::UnexpectedEof),
                    }
                },
                _ => Err(ParseError::FactorExpected(token.position)),
            }
        },
        None => Err(ParseError::UnexpectedEof),
    }
}

fn term<'a>(tokens: &'a [Token]) -> (result: Result<Partial<'a>, ParseError>)
    requires
        literals_fit(tokens@),
    ensures
        outcome(result) == spec_term(tokens@),
    decreases tokens@.len(), 1nat,
{
    let factor = factor(tokens)?;
    proof {
        lemma_factor_consumes(tokens@);
        lemma_literals_fit_rest(tokens@, factor.tokens@);
    }
    match split_first(factor.tokens) {
        Some((token, rest)) => {
            proof {
                lemma_literals_fit_rest(factor.tokens@, rest@);
            }
            match token.kind {
                TokenKind::Star => {
                    let id = token.position;
                    let term = term(rest)?;
                    Ok(
                        Partial {
                            node: Rc::new(
                                Node::Binary(BinaryOp::multiply(id, factor.node, term.node)),
                            ),
                            tokens: term.tokens,
                        },
                    )
                },
                TokenKind::Solidus => {
                    let term = term(rest)?;
                    Ok(
                        Partial {
                            node: Rc::new(
                                Node::Binary(
                                    BinaryOp::divide(token.position, factor.node, term.node),
                                ),
                            ),
                            tokens: term.tokens,
                        },
                    )
                },
                TokenKind::Unrecognized(_) => Err(ParseError::InvalidToken(token.position)),
                _ => Ok(factor),
            }
        },
        None => Ok(factor),
    }
}

fn expression<'a>(tokens: &'a [Token]) -> (result: Result<Partial<'a>, ParseError>)
    requires
        literals_fit(tokens@),
    ensures
        outcome(result) == spec_expression(tokens@),
    decreases tokens@.len(), 2nat,
{
    let term = term(tokens)?;
    proof {
        lemma_term_consumes(tokens@);
        lemma_literals_fit_rest(tokens@, term.tokens@);
    }
    match split_first(term.tokens) {
        Some((token, rest)) => {
            proof {
                lemma_literals_fit_rest(term.tokens@, rest@);
            }
            match token.kind {
                TokenKind::Plus => {
                    let expr = expression(rest)?;
                    Ok(
                        Partial {
                            node: Rc::new(
                                Node::Binary(BinaryOp::add(token.position, term.node, expr.node)),
                            ),
                            tokens: expr.tokens,
                        },
                    )
                },
                TokenKind::Minus => {
                    let expr = expression(rest)?;
                    Ok(
                        Partial {
                            node: Rc::new(
                                Node::Binary(
                                    BinaryOp::subtract(token.position, term.node, expr.node),
                                ),
                            ),
                            tokens: expr.tokens,
                        },
                    )
                },
                TokenKind::Unrecognized(_) => Err(ParseError::InvalidToken(token.position)),
                _ => Ok(term),
            }
        },
        None => Ok(term),
    }
}

impl Parser {
    /// Reads one expression from the front of `tokens`.
    pub fn parse(tokens: &[Token]) -> (result: Result<Partial, ParseError>)
        requires
            literals_fit(tokens@),
        ensures
            outcome(result) == spec_expression(tokens@),
            result matches Ok(partial) ==> {
                &&& is_proper_suffix(partial.tokens@, tokens@)
                &&& expression_spells(read(tokens@, partial.tokens@), *partial.node)
            },
    {
        proof {
            lemma_expression_consumes(tokens@);
            lemma_expression_is_sound(tokens@);
        }
        expression(tokens)
    }
}

} // verus!
