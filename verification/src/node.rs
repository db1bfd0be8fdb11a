//! The syntax tree.

use crate::decimal::{decimal, to_decimal};
use std::rc::Rc;
use vstd::prelude::*;

verus! {

/// The operators that take two operands.
#[derive(Debug, Clone, Copy, PartialEq, Eq)]
pub enum Binary {
    Add,
    Subtract,
    Multiply,
    Divide,
}

/// The operators that take one operand.
#[derive(Debug, Clone, Copy, PartialEq, Eq)]
pub enum Unary {
    Negate,
}

/// A node of the tree. A node's `id` is the position of the token it was
/// made for; it names the node in a rendered graph and means nothing else.
#[derive(Debug, PartialEq, Eq)]
pub enum Node {
    Binary(BinaryOp),
    Unary(UnaryOp),
    Constant(Constant),
}

/// An operator with its two operands.
#[derive(Debug, PartialEq, Eq)]
pub struct BinaryOp {
    pub id: usize,
    pub op: Binary,
    pub lhs: Rc<Node>,
    pub rhs: Rc<Node>,
}

/// An operator with its one operand.
#[derive(Debug, PartialEq, Eq)]
pub struct UnaryOp {
    pub id: usize,
    pub op: Unary,
    pub operand: Rc<Node>,
}

/// A number.
#[derive(Debug, Clone, Copy, PartialEq, Eq)]
pub struct Constant {
    pub id: usize,
    pub value: u64,
}

/// Calls `Rc::clone` of the standard library. Taken on trust: the handle it
/// returns points to the node that `node` points to.
#[verifier::external_body]
fn share(node: &Rc<Node>) -> (handle: Rc<Node>)
    ensures
        handle == *node,
{
    Rc::clone(node)
}

impl Binary {
    /// The sign that the operator is written with.
    pub open spec fn symbol(self) -> Seq<char> {
        match self {
            Binary::Add => seq!['+'],
            Binary::Subtract => seq!['-'],
            Binary::Multiply => seq!['*'],
            Binary::Divide => seq!['/'],
        }
    }
}

impl Unary {
    /// The sign that the operator is written with.
    pub open spec fn symbol(self) -> Seq<char> {
        match self {
            Unary::Negate => seq!['-'],
        }
    }
}

impl BinaryOp {
    /// The sum of two operands.
    pub fn add(id: usize, lhs: Rc<Node>, rhs: Rc<Node>) -> (node: Self)
        ensures
            node == (BinaryOp { id, op: Binary::Add, lhs, rhs }),
    {
        BinaryOp { id, op: Binary::Add, lhs, rhs }
    }

    /// The difference of two operands.
    pub fn subtract(id: usize, lhs: Rc<Node>, rhs: Rc<Node>) -> (node: Self)
        ensures
            node == (BinaryOp { id, op: Binary::Subtract, lhs, rhs }),
    {
        BinaryOp { id, op: Binary::Subtract, lhs, rhs }
    }

    /// The product of two operands.
    pub fn multiply(id: usize, lhs: Rc<Node>, rhs: Rc<Node>) -> (node: Self)
        ensures
            node == (BinaryOp { id, op: Binary::Multiply, lhs, rhs }),
    {
        BinaryOp { id, op: Binary::Multiply, lhs, rhs }
    }

    /// The quotient of two operands.
    pub fn divide(id: usize, lhs: Rc<Node>, rhs: Rc<Node>) -> (node: Self)
        ensures
            node == (BinaryOp { id, op: Binary::Divide, lhs, rhs }),
    {
        BinaryOp { id, op: Binary::Divide, lhs, rhs }
    }

    /// The node's id.
    pub fn id(&self) -> (id: usize)
        ensures
            id == self.id,
    {
        self.id
    }

    /// Both operands, the left one first.
    pub fn children(&self) -> (children: Vec<Rc<Node>>)
        ensures
            children@ == seq![self.lhs, self.rhs],
    {
        let mut children: Vec<Rc<Node>> = Vec::new();
        children.push(share(&self.lhs));
        children.push(share(&self.rhs));
        children
    }

    /// The operator's sign.
    pub fn to_string(&self) -> (text: String)
        ensures
            text@ == self.op.symbol(),
    {
        proof {
            reveal_strlit("+");
            reveal_strlit("-");
            reveal_strlit("*");
            reveal_strlit("/");
        }
        let sign = match self.op {
            Binary::Add => "+",
            Binary::Subtract => "-",
            Binary::Multiply => "*",
            Binary::Divide => "/",
        };
        sign.to_owned()
    }
}

impl UnaryOp {
    /// The negation of an operand.
    pub fn negate(id: usize, operand: Rc<Node>) -> (node: Self)
        ensures
            node == (UnaryOp { id, op: Unary::Negate, operand }),
    {
        UnaryOp { id, op: Unary::Negate, operand }
    }

    /// The node's id.
    pub fn id(&self) -> (id: usize)
        ensures
            id == self.id,
    {
        self.id
    }

    /// The one operand.
    pub fn children(&self) -> (children: Vec<Rc<Node>>)
        ensures
            children@ == seq![self.operand],
    {
        let mut children: Vec<Rc<Node>> = Vec::new();
        children.push(share(&self.operand));
        children
    }

    /// The operator's sign.
    pub fn to_string(&self) -> (text: String)
        ensures
            text@ == self.op.symbol(),
    {
        proof {
            reveal_strlit("-");
        }
        let sign = match self.op {
            Unary::Negate => "-",
        };
        sign.to_owned()
    }
}

impl Constant {
    /// The constant of a given value.
    pub fn new(id: usize, value: u64) -> (node: Self)
        ensures
            node == (Constant { id, value }),
    {
        Constant { id, value }
    }

    /// The node's id.
    pub fn id(&self) -> (id: usize)
        ensures
            id == self.id,
    {
        self.id
    }

    /// A constant has nothing below it.
    pub fn children(&self) -> (children: Vec<Rc<Node>>)
        ensures
            children@ == Seq::<Rc<Node>>::empty(),
    {
        Vec::new()
    }

    /// The value in base ten.
    pub fn to_string(&self) -> (text: String)
        ensures
            text@ == decimal(self.value as nat),
    {
        to_decimal(self.value)
    }
}

impl Node {
    /// The node's id.
    pub open spec fn spec_id(&self) -> usize {
        match *self {
            Node::Binary(b) => b.id,
            Node::Unary(u) => u.id,
            Node::Constant(c) => c.id,
        }
    }

    /// The nodes directly below this one, from left to right.
    pub open spec fn spec_children(&self) -> Seq<Rc<Node>> {
        match *self {
            Node::Binary(b) => seq![b.lhs, b.rhs],
            Node::Unary(u) => seq![u.operand],
            Node::Constant(_) => seq![],
        }
    }

    /// What a node shows of itself: an operator its sign, a constant its
    /// value in base ten.
    pub open spec fn label(&self) -> Seq<char> {
        match *self {
            Node::Binary(b) => b.op.symbol(),
            Node::Unary(u) => u.op.symbol(),
            Node::Constant(c) => decimal(c.value as nat),
        }
    }

    /// How many operators with two operands the tree holds.
    pub open spec fn binary_operators(&self) -> nat
        decreases *self,
    {
        match *self {
            Node::Binary(b) => 1 + b.lhs.binary_operators() + b.rhs.binary_operators(),
            Node::Unary(u) => u.operand.binary_operators(),
            Node::Constant(_) => 0,
        }
    }

    /// How many operators with one operand the tree holds.
    pub open spec fn unary_operators(&self) -> nat
        decreases *self,
    {
        match *self {
            Node::Binary(b) => b.lhs.unary_operators() + b.rhs.unary_operators(),
            Node::Unary(u) => 1 + u.operand.unary_operators(),
            Node::Constant(_) => 0,
        }
    }

    /// How many operators the tree holds.
    pub open spec fn operators(&self) -> nat {
        self.binary_operators() + self.unary_operators()
    }

    /// The nodes of the tree in depth-first order: each node before the nodes
    /// below it, all of the left operand before the right operand.
    pub open spec fn preorder(&self) -> Seq<Node>
        decreases *self,
    {
        match *self {
            Node::Binary(b) => seq![*self] + b.lhs.preorder() + b.rhs.preorder(),
            Node::Unary(u) => seq![*self] + u.operand.preorder(),
            Node::Constant(_) => seq![*self],
        }
    }

    /// The ids of the tree lie between `low` and `high` and rise from left
    /// to right: an operator's id is above every id of its left operand and
    /// below every id of its right operand, a negation's id is below every
    /// id of its operand.
    pub open spec fn ids_rise(&self, low: int, high: int) -> bool
        decreases *self,
    {
        match *self {
            Node::Binary(b) => {
                &&& low <= b.id <= high
                &&& b.lhs.ids_rise(low, b.id - 1)
                &&& b.rhs.ids_rise(b.id + 1, high)
            },
            Node::Unary(u) => low <= u.id <= high && u.operand.ids_rise(u.id + 1, high),
            Node::Constant(c) => low <= c.id <= high,
        }
    }

    /// No two nodes of the tree have the same id.
    pub open spec fn distinct_ids(&self) -> bool {
        forall|i: int, j: int|
            0 <= i < j < self.preorder().len() ==> (#[trigger] self.preorder()[i]).spec_id() != (
            #[trigger] self.preorder()[j]).spec_id()
    }

    /// The node's id.
    #[verifier::when_used_as_spec(spec_id)]
    pub fn id(&self) -> (id: usize)
        ensures
            id == self.spec_id(),
    {
        match self {
            Node::Binary(b) => b.id(),
            Node::Unary(u) => u.id(),
            Node::Constant(c) => c.id(),
        }
    }

    /// The nodes directly below this one, from left to right.
    pub fn children(&self) -> (children: Vec<Rc<Node>>)
        ensures
            children@ == self.spec_children(),
    {
        match self {
            Node::Binary(b) => b.children(),
            Node::Unary(u) => u.children(),
            Node::Constant(c) => c.children(),
        }
    }

    /// The node's label.
    pub fn to_string(&self) -> (text: String)
        ensures
            text@ == self.label(),
    {
        match self {
            Node::Binary(b) => b.to_string(),
            Node::Unary(u) => u.to_string(),
            Node::Constant(c) => c.to_string(),
        }
    }
}

/// Ids that rise between two bounds rise between any wider bounds.
pub proof fn lemma_ids_rise_wider(node: &Node, low: int, high: int, lower: int, higher: int)
    requires
        node.ids_rise(low, high),
        lower <= low,
        high <= higher,
    ensures
        node.ids_rise(lower, higher),
    decreases node,
{
    match node {
        Node::Binary(b) => {
            lemma_ids_rise_wider(&*b.lhs, low, b.id - 1, lower, b.id - 1);
            lemma_ids_rise_wider(&*b.rhs, b.id + 1, high, b.id + 1, higher);
        },
        Node::Unary(u) => {
            lemma_ids_rise_wider(&*u.operand, u.id + 1, high, u.id + 1, higher);
        },
        Node::Constant(_) => {},
    }
}

/// Where the ids rise from left to right between two bounds, every id lies
/// between the bounds and no two nodes have the same.
pub proof fn lemma_rising_ids_are_distinct(node: &Node, low: int, high: int)
    requires
        node.ids_rise(low, high),
    ensures
        forall|i: int|
            0 <= i < node.preorder().len() ==> low <= (#[trigger] node.preorder()[i]).spec_id()
                <= high,
        node.distinct_ids(),
    decreases node,
{
    let nodes = node.preorder();
    match node {
        Node::Binary(b) => {
            let left = b.lhs.preorder();
            let right = b.rhs.preorder();
            lemma_rising_ids_are_distinct(&*b.lhs, low, b.id - 1);
            lemma_rising_ids_are_distinct(&*b.rhs, b.id + 1, high);
            assert forall|i: int| 0 <= i < nodes.len() implies {
                &&& low <= (#[trigger] nodes[i]).spec_id() <= high
                &&& i == 0 ==> nodes[i].spec_id() == b.id
                &&& 1 <= i <= left.len() ==> nodes[i] == left[i - 1] && nodes[i].spec_id() < b.id
                &&& left.len() < i ==> nodes[i] == right[i - 1 - left.len()] && nodes[i].spec_id()
                    > b.id
            } by {}
            assert forall|i: int, j: int| 0 <= i < j < nodes.len() implies (
            #[trigger] nodes[i]).spec_id() != (#[trigger] nodes[j]).spec_id() by {}
        },
        Node::Unary(u) => {
            let below = u.operand.preorder();
            lemma_rising_ids_are_distinct(&*u.operand, u.id + 1, high);
            assert forall|i: int| 0 <= i < nodes.len() implies {
                &&& low <= (#[trigger] nodes[i]).spec_id() <= high
                &&& i == 0 ==> nodes[i].spec_id() == u.id
                &&& 1 <= i ==> nodes[i] == below[i - 1] && nodes[i].spec_id() > u.id
            } by {}
            assert forall|i: int, j: int| 0 <= i < j < nodes.len() implies (
            #[trigger] nodes[i]).spec_id() != (#[trigger] nodes[j]).spec_id() by {}
        },
        Node::Constant(_) => {},
    }
}

/// A traversal starts at the root of the tree.
pub proof fn lemma_preorder_starts_at_root(node: &Node)
    ensures
        node.preorder().len() > 0,
        node.preorder()[0] == *node,
{
}

/// A traversal visits the root, one node more for each operator with one
/// operand and two more for each operator with two.
pub proof fn lemma_preorder_len(node: &Node)
    ensures
        node.preorder().len() == 1 + node.unary_operators() + 2 * node.binary_operators(),
    decreases node,
{
    match node {
        Node::Binary(b) => {
            lemma_preorder_len(&*b.lhs);
            lemma_preorder_len(&*b.rhs);
        },
        Node::Unary(u) => {
            lemma_preorder_len(&*u.operand);
        },
        Node::Constant(_) => {},
    }
}

/// Where no operator takes two operands, a traversal visits one node more
/// than the tree has operators.
pub proof fn lemma_preorder_len_of_chain(node: &Node)
    requires
        node.binary_operators() == 0,
    ensures
        node.preorder().len() == 1 + node.operators(),
{
    lemma_preorder_len(node);
}

} // verus!
