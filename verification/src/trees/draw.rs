//! An outline of the tree for diagnostics: one line for each node, the
//! node before its children, and the children from left to right.

use crate::order::Key;
use crate::trees::node::{InternalNode, Node};
use vstd::prelude::*;

verus! {

/// One line of the outline, as exec data: a node, and the blanks that stand
/// before it.
pub struct NodeLine<'a, T: Key> {
    /// Two blanks for each level between the root and the node.
    pub indent: String,
    /// The node has no children.
    pub is_leaf: bool,
    /// The count that the node keeps of its keys.
    pub num_keys: usize,
    /// The keys of the node itself.
    pub keys: &'a Vec<T>,
}

/// One line of the outline, as a value.
pub struct Line<T> {
    pub indent: Seq<char>,
    pub is_leaf: bool,
    pub num_keys: nat,
    pub keys: Seq<T>,
}

impl<'a, T: Key> View for NodeLine<'a, T> {
    type V = Line<T>;

    open spec fn view(&self) -> Line<T> {
        Line {
            indent: self.indent@,
            is_leaf: self.is_leaf,
            num_keys: self.num_keys as nat,
            keys: self.keys@,
        }
    }
}

/// The lines as values.
pub open spec fn lines_of<'a, T: Key>(lines: Seq<NodeLine<'a, T>>) -> Seq<Line<T>> {
    Seq::new(lines.len(), |i: int| lines[i]@)
}

/// What a level adds to the blanks before a line.
pub open spec fn step() -> Seq<char> {
    seq![' ', ' ']
}

impl<T: Key> InternalNode<T> {
    /// The outlines of the first `n` children, one after the other, each
    /// line with `indent` before it.
    pub open spec fn outline_to(self, n: nat, indent: Seq<char>) -> Seq<Line<T>>
        decreases self, n,
    {
        if n == 0 || n > self.children().len() {
            Seq::empty()
        } else {
            self.outline_to((n - 1) as nat, indent) + self.children()[n - 1].outline(indent)
        }
    }
}

impl<T: Key> Node<T> {
    /// The count that the node keeps of its keys.
    pub open spec fn count(self) -> nat {
        match self {
            Node::Internal(n) => n.count(),
            Node::Leaf(l) => l.count(),
        }
    }

    /// The outline of the node and of what is below it: the node's own line
    /// with `indent` before it, then the outlines of its children with two
    /// blanks more.
    pub open spec fn outline(self, indent: Seq<char>) -> Seq<Line<T>>
        decreases self,
    {
        let own = Line {
            indent,
            is_leaf: self.is_leaf(),
            num_keys: self.count(),
            keys: self.keys(),
        };
        match self {
            Node::Internal(n) => seq![own] + n.outline_to(n.children().len(), indent + step()),
            Node::Leaf(l) => seq![own],
        }
    }
}

/// `String::push_str`: `tail` is appended to `text`, which is otherwise
/// left as it was.
#[verifier::external_body]
fn push_str(text: &mut String, tail: &str)
    ensures
        final(text)@ == old(text)@ + tail@,
{
    text.push_str(tail)
}

/// Appends the outline of `node` and of what is below it to `lines`.
pub fn print_node<'a, T: Key>(node: &'a Node<T>, indent: &String, lines: &mut Vec<NodeLine<'a, T>>)
    ensures
        lines_of(final(lines)@) == lines_of(old(lines)@) + node.outline(indent@),
    decreases node,
{
    let spaces = indent.clone();
    match node {
        Node::Leaf(leaf) => {
            lines.push(
                NodeLine { indent: spaces, is_leaf: true, num_keys: leaf.num_keys, keys: &leaf.keys },
            );
            proof {
                assert(lines_of(lines@) =~= lines_of(old(lines)@) + node.outline(indent@));
            }
        },
        Node::Internal(internal) => {
            lines.push(
                NodeLine {
                    indent: spaces,
                    is_leaf: false,
                    num_keys: internal.num_keys,
                    keys: &internal.keys,
                },
            );
            let mut deeper = indent.clone();
            push_str(&mut deeper, "  ");
            proof {
                reveal_strlit("  ");
                assert(deeper@ =~= indent@ + step());
            }
            let ghost own = lines_of(lines@);
            proof {
                assert(own =~= lines_of(old(lines)@) + node.outline(indent@).take(1));
            }
            let mut i: usize = 0;
            while i < internal.children.len()
                invariant
                    i <= internal.children.len(),
                    deeper@ == indent@ + step(),
                    node is Internal,
                    node->Internal_0 == *internal,
                    lines_of(lines@) == own + internal.outline_to(i as nat, deeper@),
                decreases internal.children.len() - i,
            {
                print_node(&*internal.children[i], &deeper, lines);
                proof {
                    assert(internal.children()[i as int] == *internal.children[i as int]);
                    assert(lines_of(lines@) =~= own + internal.outline_to(
                        (i + 1) as nat,
                        deeper@,
                    ));
                }
                i += 1;
            }
            proof {
                assert(lines_of(lines@) =~= lines_of(old(lines)@) + node.outline(indent@));
            }
        },
    }
}

} // verus!
