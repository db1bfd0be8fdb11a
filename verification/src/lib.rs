//! Arithmetic expressions: scanning, parsing into a syntax tree, traversal and
//! graph rendering.

use crate::decimal::{decimal, decimal_value, is_digit_char, lemma_decimal_denotes};
use crate::error::ParseError;
use crate::graph::{rendering, Graph};
use crate::node::{lemma_rising_ids_are_distinct, Constant, Node};
use crate::grammar::{
    digits_value, lemma_expression_ids, lemma_expression_of_digits, literals_fit,
    spec_expression,
};
use crate::parser::Parser;
use crate::scanner::{
    lemma_scan_positions, lemma_scan_without_blanks, scan, Scanner, Token,
};
use crate::spelling::{expression_spells, lemma_parser_reads_what_is_spelled};
use std::rc::Rc;
use vstd::prelude::*;

pub mod decimal;
pub mod error;
pub mod grammar;
pub mod graph;
pub mod iter;
pub mod node;
pub mod notation;
pub mod parser;
pub mod scanner;
pub mod spelling;

verus! {

/// The tree of a text that holds one expression and nothing after it.
pub open spec fn spec_parse(text: Seq<char>) -> Result<Node, ParseError> {
    match spec_expression(scan(text)) {
        Ok((node, rest)) => if rest.len() == 0 {
            Ok(node)
        } else {
            Err(ParseError::UnexpectedToken)
        },
        Err(error) => Err(error),
    }
}

/// The graph of a text that holds one expression and nothing after it.
pub open spec fn spec_render_graph(text: Seq<char>) -> Result<Seq<char>, ParseError> {
    match spec_parse(text) {
        Ok(node) => Ok(rendering(node)),
        Err(error) => Err(error),
    }
}

/// A text is parsed as a tree exactly where its tokens spell the tree; the
/// numbers in such a text fit into sixty-four bits.
pub proof fn lemma_parse_reads_what_is_spelled(text: Seq<char>, node: &Node)
    ensures
        expression_spells(scan(text), *node) <==> literals_fit(scan(text)) && spec_parse(text) == Ok::<
            Node,
            ParseError,
        >(*node),
{
    lemma_parser_reads_what_is_spelled(scan(text), node);
    if let Ok((_, rest)) = spec_expression(scan(text)) {
        assert(rest.len() == 0 ==> rest =~= Seq::<Token>::empty());
    }
}

/// The tokens of a text of digits denote the number that the text denotes.
pub proof fn lemma_scan_of_digits(text: Seq<char>)
    requires
        forall|i: int| 0 <= i < text.len() ==> is_digit_char(#[trigger] text[i]),
    ensures
        scan(text).len() == text.len(),
        forall|i: int| 0 <= i < text.len() ==> (#[trigger] scan(text)[i]).kind is Digit,
        digits_value(scan(text)) == decimal_value(text),
    decreases text.len(),
{
    lemma_scan_without_blanks(text, 0);
    if text.len() > 0 {
        let front = text.drop_last();
        lemma_scan_of_digits(front);
        lemma_scan_without_blanks(front, 0);
        assert(scan(text).drop_last() =~= scan(front));
    }
}

/// A text of digits, and nothing else, is the constant that the digits
/// denote, where that number fits into sixty-four bits.
pub proof fn lemma_parse_digits(text: Seq<char>)
    requires
        text.len() > 0,
        forall|i: int| 0 <= i < text.len() ==> is_digit_char(#[trigger] text[i]),
        decimal_value(text) <= u64::MAX,
    ensures
        literals_fit(scan(text)),
        spec_parse(text) == Ok::<Node, ParseError>(
            Node::Constant(Constant { id: 0, value: decimal_value(text) as u64 }),
        ),
{
    lemma_scan_of_digits(text);
    lemma_scan_without_blanks(text, 0);
    lemma_expression_of_digits(scan(text));
}

/// A number written in base ten is read back as that number: a constant at
/// position zero.
pub proof fn lemma_parse_decimal(n: u64)
    ensures
        literals_fit(scan(decimal(n as nat))),
        spec_parse(decimal(n as nat)) == Ok::<Node, ParseError>(
            Node::Constant(Constant { id: 0, value: n }),
        ),
{
    lemma_decimal_denotes(n as nat);
    lemma_parse_digits(decimal(n as nat));
}

/// No two nodes of a parsed tree have the same id: each takes the position
/// of a token of its own.
pub proof fn lemma_parsed_ids_are_distinct(text: Seq<char>)
    requires
        text.len() <= usize::MAX,
    ensures
        spec_parse(text) matches Ok(node) ==> node.distinct_ids(),
{
    let tokens = scan(text);
    lemma_scan_positions(text, 0);
    lemma_expression_ids(tokens);
    if let Ok((node, rest)) = spec_expression(tokens) {
        lemma_rising_ids_are_distinct(
            &node,
            tokens[0].position as int,
            tokens[tokens.len() - rest.len() - 1].position as int,
        );
    }
}

/// Parses a text that holds one expression. Every number in the text has to
/// fit into sixty-four bits, which `parser::literals_in_range` tells of the
/// tokens of a text.
pub fn parse(text: &str) -> (result: Result<Rc<Node>, ParseError>)
    requires
        literals_fit(scan(text@)),
    ensures
        match result {
            Ok(node) => spec_parse(text@) == Ok::<Node, ParseError>(*node),
            Err(error) => spec_parse(text@) == Err::<Node, ParseError>(error),
        },
        result matches Ok(node) ==> expression_spells(scan(text@), *node),
        result is Err ==> forall|node: Node| !#[trigger] expression_spells(scan(text@), node),
{
    let scanner = Scanner::new(text);
    let tokens: Vec<Token> = scanner.collect();
    proof {
        assert forall|node: Node| #[trigger]
            expression_spells(tokens@, node) implies spec_parse(text@) is Ok by {
            lemma_parse_reads_what_is_spelled(text@, &node);
        }
        if let Ok(node) = spec_parse(text@) {
            lemma_parse_reads_what_is_spelled(text@, &node);
        }
    }
    let expr = Parser::parse(tokens.as_slice())?;
    match expr.tokens.len() {
        0 => Ok(expr.node),
        _ => Err(ParseError::UnexpectedToken),
    }
}

/// Parses a text that holds one expression and renders its tree as a graph
/// description. Every number in the text has to fit into sixty-four bits, as
/// for `parse`.
pub fn render_graph(text: &str) -> (result: Result<String, ParseError>)
    requires
        literals_fit(scan(text@)),
    ensures
        match result {
            Ok(graph) => spec_render_graph(text@) == Ok::<Seq<char>, ParseError>(graph@),
            Err(error) => spec_render_graph(text@) == Err::<Seq<char>, ParseError>(error),
        },
{
    let root = parse(text)?;
    Ok(dot(root))
}

/// Renders a tree as a graph description.
pub fn dot(node: Rc<Node>) -> (text: String)
    ensures
        text@ == rendering(*node),
{
    Graph::dot(node)
}

} // verus!
