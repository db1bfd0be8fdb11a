//! Rendering of a tree as a graph description.
//!
//! ```text
//! strict graph {
//!   0 [ label = "+" ]
//!  0 -- { 1 2 }
//!   1 [ label = "1" ]
//!   2 [ label = "2" ]
//! }
//! ```

use crate::decimal::{decimal, to_decimal};
use crate::iter::Iter;
use crate::node::Node;
use std::rc::Rc;
use vstd::prelude::*;

verus! {

/// The renderer of graph descriptions.
pub struct Graph;

/// The names of the nodes that edges lead to, each after a blank.
pub open spec fn targets(children: Seq<Rc<Node>>) -> Seq<char>
    decreases children.len(),
{
    if children.len() == 0 {
        Seq::empty()
    } else {
        targets(children.drop_last()) + " "@ + decimal(children.last().spec_id() as nat)
    }
}

/// The line that declares a node under the name of its `id`.
pub open spec fn declaration(node: Node) -> Seq<char> {
    "  "@ + decimal(node.spec_id() as nat) + " [ label = \""@ + node.label() + "\" ]"@
}

/// The line that joins a node to all of the nodes directly below it.
pub open spec fn edges(node: Node) -> Seq<char> {
    " "@ + decimal(node.spec_id() as nat) + " -- {"@ + targets(node.spec_children()) + " }"@
}

/// What the graph says of one node: its declaration and, on a line of their
/// own, its edges if it has any.
pub open spec fn statement(node: Node) -> Seq<char> {
    if node.spec_children().len() == 0 {
        declaration(node)
    } else {
        declaration(node) + "\n"@ + edges(node)
    }
}

/// The statements of the given nodes, with a line break between every two.
pub open spec fn statements(nodes: Seq<Node>) -> Seq<char>
    decreases nodes.len(),
{
    if nodes.len() == 0 {
        Seq::empty()
    } else if nodes.len() == 1 {
        statement(nodes[0])
    } else {
        statements(nodes.drop_last()) + "\n"@ + statement(nodes.last())
    }
}

/// The graph of a tree: the statements of its nodes in depth-first order,
/// between a fixed first and last line.
pub open spec fn rendering(node: Node) -> Seq<char> {
    "strict graph {\n"@ + statements(node.preorder()) + "\n}"@
}

impl Graph {
    /// Renders the tree below `node`. The text depends on the tree alone.
    pub fn dot(node: Rc<Node>) -> (text: String)
        ensures
            text@ == rendering(*node),
    {
        let mut iter = Iter::new(node);
        let mut text = "strict graph {\n".to_owned();
        let mut first = true;
        let ghost mut done: Seq<Node> = Seq::empty();
        loop
            invariant
                done + iter@ == node.preorder(),
                first == (done.len() == 0),
                text@ == "strict graph {\n"@ + statements(done),
            ensures
                text@ == "strict graph {\n"@ + statements(node.preorder()),
            decreases iter@.len(),
        {
            let ghost before = iter@;
            match iter.next() {
                Some(next) => {
                    if !first {
                        text.append("\n");
                    }
                    text.append(Graph::stmt(&next).as_str());
                    first = false;
                    proof {
                        let grown = done.push(before[0]);
                        assert(grown.drop_last() =~= done);
                        done = grown;
                    }
                },
                None => {
                    break ;
                },
            }
        }
        text.append("\n}");
        text
    }

    fn stmt(node: &Node) -> (text: String)
        ensures
            text@ == statement(*node),
    {
        let name = to_decimal(node.id() as u64);
        let mut buffer = String::new();
        buffer.append("  ");
        buffer.append(name.as_str());
        buffer.append(" [ label = \"");
        buffer.append(node.to_string().as_str());
        buffer.append("\" ]");
        let children = node.children();
        if children.len() > 0 {
            buffer.append("\n");
            buffer.append(" ");
            buffer.append(name.as_str());
            buffer.append(" -- {");
            let mut i: usize = 0;
            while i < children.len()
                invariant
                    i <= children@.len(),
                    children@ == node.spec_children(),
                    buffer@ == declaration(*node) + "\n"@ + " "@ + decimal(
                        node.spec_id() as nat,
                    ) + " -- {"@ + targets(children@.take(i as int)),
                decreases children@.len() - i,
            {
                buffer.append(" ");
                buffer.append(to_decimal(children[i].id() as u64).as_str());
                proof {
                    assert(children@.take(i + 1).drop_last() =~= children@.take(i as int));
                }
                i = i + 1;
            }
            buffer.append(" }");
            proof {
                assert(children@.take(children@.len() as int) =~= children@);
            }
        }
        buffer
    }
}

} // verus!
