//! The scanner: from text to positioned tokens.

use crate::decimal::{digit_value, is_digit_char};
use std::str::Chars;
use vstd::prelude::*;
use vstd::std_specs::iter::IteratorSpec;
use vstd::utf8::encode_utf8;

verus! {

/// What a token is.
#[derive(Debug, Clone, Copy, PartialEq, Eq)]
pub enum TokenKind {
    /// One decimal digit, by its value.
    Digit(u32),
    Plus,
    Minus,
    Star,
    Solidus,
    LeftParen,
    RightParen,
    /// Any character that is neither blank nor one of the above.
    Unrecognized(char),
}

impl TokenKind {
    /// Whether the token is a digit.
    pub open spec fn spec_is_digit(&self) -> bool {
        *self is Digit
    }

    /// The digit's value; zero for every other kind.
    pub open spec fn spec_value(&self) -> u64 {
        match *self {
            TokenKind::Digit(value) => value as u64,
            _ => 0,
        }
    }

    /// Whether the token is a digit.
    #[verifier::when_used_as_spec(spec_is_digit)]
    pub fn is_digit(&self) -> (b: bool)
        ensures
            b == (*self is Digit),
    {
        match *self {
            TokenKind::Digit(_) => true,
            _ => false,
        }
    }

    /// The digit's value; zero for every other kind.
    #[verifier::when_used_as_spec(spec_value)]
    pub fn value(&self) -> (v: u64)
        ensures
            v == self.spec_value(),
    {
        match *self {
            TokenKind::Digit(value) => value as u64,
            _ => 0,
        }
    }
}

/// A token and the index of its character in the text.
#[derive(Debug, Clone, Copy, PartialEq, Eq)]
pub struct Token {
    pub kind: TokenKind,
    pub position: usize,
}

impl Token {
    fn new(kind: TokenKind, position: usize) -> (token: Self)
        ensures
            token == (Token { kind, position }),
    {
        Token { kind, position }
    }
}

/// Blank characters separate tokens and yield none.
pub open spec fn is_blank(ch: char) -> bool {
    ch == ' ' || ch == '\n' || ch == '\t'
}

/// The kind of the token that a character stands for, if it is not blank.
pub open spec fn classify(ch: char) -> TokenKind {
    if is_digit_char(ch) {
        TokenKind::Digit(digit_value(ch) as u32)
    } else if ch == '+' {
        TokenKind::Plus
    } else if ch == '-' {
        TokenKind::Minus
    } else if ch == '*' {
        TokenKind::Star
    } else if ch == '/' {
        TokenKind::Solidus
    } else if ch == '(' {
        TokenKind::LeftParen
    } else if ch == ')' {
        TokenKind::RightParen
    } else {
        TokenKind::Unrecognized(ch)
    }
}

/// The tokens of `text`, where the first character of `text` counts as the
/// character of index `offset`.
pub open spec fn scan_from(text: Seq<char>, offset: nat) -> Seq<Token>
    decreases text.len(),
{
    if text.len() == 0 {
        Seq::empty()
    } else if is_blank(text[0]) {
        scan_from(text.drop_first(), offset + 1)
    } else {
        seq![Token { kind: classify(text[0]), position: offset as usize }] + scan_from(
            text.drop_first(),
            offset + 1,
        )
    }
}

/// The tokens of a whole text.
pub open spec fn scan(text: Seq<char>) -> Seq<Token> {
    scan_from(text, 0)
}

/// The positions of the tokens rise from each token to the next.
pub open spec fn positions_rise(tokens: Seq<Token>) -> bool {
    forall|i: int, j: int|
        0 <= i < j < tokens.len() ==> (#[trigger] tokens[i]).position < (
        #[trigger] tokens[j]).position
}

/// Every token stands for the character at its position, which is not blank,
/// and the tokens come in the order of their characters.
pub proof fn lemma_scan_positions(text: Seq<char>, offset: nat)
    requires
        offset + text.len() <= usize::MAX,
    ensures
        scan_from(text, offset).len() <= text.len(),
        forall|i: int|
            0 <= i < scan_from(text, offset).len() ==> {
                let token = #[trigger] scan_from(text, offset)[i];
                &&& offset <= token.position < offset + text.len()
                &&& !is_blank(text[token.position - offset])
                &&& token.kind == classify(text[token.position - offset])
            },
        positions_rise(scan_from(text, offset)),
    decreases text.len(),
{
    if text.len() > 0 {
        let tail = text.drop_first();
        let tokens = scan_from(text, offset);
        let later = scan_from(tail, offset + 1);
        lemma_scan_positions(tail, offset + 1);
        assert forall|i: int| 0 <= i < tokens.len() implies {
            let token = #[trigger] tokens[i];
            &&& offset <= token.position < offset + text.len()
            &&& !is_blank(text[token.position - offset])
            &&& token.kind == classify(text[token.position - offset])
        } by {
            if is_blank(text[0]) {
                assert(tokens[i] == later[i]);
            } else if i > 0 {
                assert(tokens[i] == later[i - 1]);
            }
        }
    }
}

/// Every character that is not blank has its token.
pub proof fn lemma_scan_misses_none(text: Seq<char>, offset: nat, at: int)
    requires
        offset + text.len() <= usize::MAX,
        0 <= at < text.len(),
        !is_blank(text[at]),
    ensures
        exists|i: int|
            0 <= i < scan_from(text, offset).len() && (#[trigger] scan_from(
                text,
                offset,
            )[i]).position == offset + at,
    decreases text.len(),
{
    let tokens = scan_from(text, offset);
    if at == 0 {
        assert(tokens[0].position == offset + at);
    } else {
        let tail = text.drop_first();
        let later = scan_from(tail, offset + 1);
        lemma_scan_misses_none(tail, offset + 1, at - 1);
        let i = choose|i: int|
            0 <= i < later.len() && (#[trigger] later[i]).position == offset + 1 + (at - 1);
        if !is_blank(text[0]) {
            assert(tokens[i + 1].position == offset + at);
        }
    }
}

/// Where no character is blank, every character yields a token.
pub proof fn lemma_scan_without_blanks(text: Seq<char>, offset: nat)
    requires
        forall|i: int| 0 <= i < text.len() ==> !is_blank(#[trigger] text[i]),
    ensures
        scan_from(text, offset).len() == text.len(),
        forall|i: int|
            0 <= i < text.len() ==> #[trigger] scan_from(text, offset)[i] == (Token {
                kind: classify(text[i]),
                position: (offset + i) as usize,
            }),
    decreases text.len(),
{
    if text.len() > 0 {
        lemma_scan_without_blanks(text.drop_first(), offset + 1);
    }
}

/// A text has no more characters than bytes.
proof fn lemma_chars_fit_in_bytes(text: Seq<char>)
    ensures
        text.len() <= encode_utf8(text).len(),
    decreases text.len(),
{
    if text.len() > 0 {
        lemma_chars_fit_in_bytes(text.drop_first());
    }
}

/// Calls `Chars::as_str` of the standard library. Taken on trust: the text
/// it returns holds the characters that the iterator has not yielded yet, in
/// their order, and nothing else.
#[verifier::external_body]
fn unread<'a>(chars: &Chars<'a>) -> (rest: &'a str)
    ensures
        rest@ == chars.remaining(),
{
    chars.as_str()
}

fn kind_of(ch: char) -> (kind: TokenKind)
    requires
        !is_blank(ch),
    ensures
        kind == classify(ch),
{
    if ch >= '0' && ch <= '9' {
        TokenKind::Digit(ch as u32 - '0' as u32)
    } else if ch == '+' {
        TokenKind::Plus
    } else if ch == '-' {
        TokenKind::Minus
    } else if ch == '*' {
        TokenKind::Star
    } else if ch == '/' {
        TokenKind::Solidus
    } else if ch == '(' {
        TokenKind::LeftParen
    } else if ch == ')' {
        TokenKind::RightParen
    } else {
        TokenKind::Unrecognized(ch)
    }
}

/// A forward-only source of the tokens of one text: it holds the part of
/// the text that it has not read yet, and how many characters it has read.
pub struct Scanner<'a> {
    rest: &'a str,
    index: usize,
}

impl<'a> View for Scanner<'a> {
    type V = Seq<Token>;

    /// The tokens that are still to come.
    closed spec fn view(&self) -> Seq<Token> {
        scan_from(self.rest@, self.index as nat)
    }
}

impl<'a> Scanner<'a> {
    #[verifier::type_invariant]
    spec fn positions_fit(self) -> bool {
        self.index + self.rest@.len() <= usize::MAX
    }

    /// A scanner at the start of `text`.
    pub fn new(text: &'a str) -> (scanner: Self)
        ensures
            scanner@ == scan(text@),
    {
        // The bytes of a text are counted by a `usize`, and so are its
        // characters, of which there are no more.
        let _bytes = text.as_bytes().len();
        proof {
            lemma_chars_fit_in_bytes(text@);
        }
        Scanner { rest: text, index: 0 }
    }

    /// Hands out the next token, if there is one.
    pub fn next(&mut self) -> (token: Option<Token>)
        ensures
            match token {
                Some(t) => old(self)@.len() > 0 && t == old(self)@[0] && final(self)@ == old(
                    self,
                )@.drop_first(),
                None => old(self)@.len() == 0 && final(self)@ == old(self)@,
            },
    {
        broadcast use vstd::string::group_string_axioms;
        loop
            invariant
                self@ == old(self)@,
            decreases self.rest@.len(),
        {
            proof {
                use_type_invariant(&*self);
            }
            let mut chars = self.rest.chars();
            match chars.next() {
                None => {
                    return None;
                },
                Some(ch) => {
                    let position = self.index;
                    self.rest = unread(&chars);
                    self.index = position + 1;
                    if !(ch == ' ' || ch == '\n' || ch == '\t') {
                        return Some(Token::new(kind_of(ch), position));
                    }
                },
            }
        }
    }

    /// All the tokens that are still to come.
    pub fn collect(self) -> (tokens: Vec<Token>)
        ensures
            tokens@ == self@,
    {
        let mut scanner = self;
        let mut tokens: Vec<Token> = Vec::new();
        loop
            invariant
                tokens@ + scanner@ == self@,
            decreases scanner@.len(),
        {
            match scanner.next() {
                None => {
                    return tokens;
                },
                Some(token) => {
                    tokens.push(token);
                },
            }
        }
    }
}

} // verus!
