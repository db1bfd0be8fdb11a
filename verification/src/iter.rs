//! Depth-first traversal of a tree, with the nodes still to visit kept on a
//! stack of its own: how deep the tree is does not matter to the call stack.

use crate::node::Node;
use std::rc::Rc;
use vstd::prelude::*;

verus! {

/// A traversal under way.
pub struct Iter {
    stack: Vec<Rc<Node>>,
}

/// The traversals of several trees, one after the other.
spec fn forest(roots: Seq<Rc<Node>>) -> Seq<Node>
    decreases roots.len(),
{
    if roots.len() == 0 {
        Seq::empty()
    } else {
        roots[0].preorder() + forest(roots.drop_first())
    }
}

/// What a stack of roots still yields: all of the topmost tree first.
spec fn pending(stack: Seq<Rc<Node>>) -> Seq<Node>
    decreases stack.len(),
{
    if stack.len() == 0 {
        Seq::empty()
    } else {
        stack.last().preorder() + pending(stack.drop_last())
    }
}

/// A traversal visits a node and then the trees below it, from left to
/// right.
proof fn lemma_preorder_unfolds(node: &Node)
    ensures
        node.preorder() == seq![*node] + forest(node.spec_children()),
{
    let children = node.spec_children();
    assert(forest(Seq::<Rc<Node>>::empty()) =~= Seq::<Node>::empty());
    match node {
        Node::Binary(b) => {
            let tail = children.drop_first();
            assert(tail.drop_first() =~= Seq::<Rc<Node>>::empty());
            assert(forest(tail) =~= b.rhs.preorder());
        },
        Node::Unary(u) => {
            assert(children.drop_first() =~= Seq::<Rc<Node>>::empty());
        },
        Node::Constant(_) => {},
    }
}

proof fn lemma_pending_push(stack: Seq<Rc<Node>>, top: Rc<Node>)
    ensures
        pending(stack.push(top)) == top.preorder() + pending(stack),
{
    assert(stack.push(top).drop_last() =~= stack);
}

impl View for Iter {
    type V = Seq<Node>;

    /// The nodes that are still to come, in the order in which they come.
    closed spec fn view(&self) -> Seq<Node> {
        pending(self.stack@)
    }
}

impl Iter {
    /// Starts a traversal at `root`, which is the first node to come.
    pub fn new(root: Rc<Node>) -> (iter: Self)
        ensures
            iter@ == root.preorder(),
            iter@.len() > 0 && iter@[0] == *root,
    {
        let mut stack: Vec<Rc<Node>> = Vec::new();
        stack.push(root);
        proof {
            lemma_pending_push(Seq::empty(), root);
        }
        Iter { stack }
    }

    /// Hands out the next node, if there is one.
    pub fn next(&mut self) -> (next: Option<Rc<Node>>)
        ensures
            match next {
                Some(node) => old(self)@.len() > 0 && *node == old(self)@[0] && final(self)@
                    == old(self)@.drop_first(),
                None => old(self)@.len() == 0 && final(self)@ == old(self)@,
            },
    {
        match self.stack.pop() {
            Some(node) => {
                let ghost below = self.stack@;
                let mut nodes = node.children();
                let ghost children = nodes@;
                proof {
                    lemma_pending_push(below, node);
                    lemma_preorder_unfolds(&*node);
                }
                while nodes.len() > 0
                    invariant
                        nodes@ == children.take(nodes@.len() as int),
                        nodes@.len() <= children.len(),
                        pending(self.stack@) == forest(children.skip(nodes@.len() as int))
                            + pending(below),
                    decreases nodes@.len(),
                {
                    let ghost rest = children.skip(nodes@.len() as int);
                    let child = nodes.pop().unwrap();
                    proof {
                        lemma_pending_push(self.stack@, child);
                        let grown = children.skip(nodes@.len() as int);
                        assert(grown.drop_first() =~= rest);
                    }
                    self.stack.push(child);
                }
                proof {
                    assert(children.skip(0) =~= children);
                }
                Some(node)
            },
            None => None,
        }
    }

    /// All the nodes that are still to come.
    pub fn collect(self) -> (nodes: Vec<Rc<Node>>)
        ensures
            nodes@.len() == self@.len(),
            forall|i: int| 0 <= i < nodes@.len() ==> *nodes@[i] == self@[i],
    {
        let mut iter = self;
        let mut nodes: Vec<Rc<Node>> = Vec::new();
        loop
            invariant
                nodes@.len() + iter@.len() == self@.len(),
                forall|i: int| 0 <= i < nodes@.len() ==> *nodes@[i] == self@[i],
                forall|i: int| 0 <= i < iter@.len() ==> iter@[i] == self@[nodes@.len() + i],
            decreases iter@.len(),
        {
            match iter.next() {
                None => {
                    return nodes;
                },
                Some(node) => {
                    nodes.push(node);
                },
            }
        }
    }
}

} // verus!
