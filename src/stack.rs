use vstd::prelude::*;

use crate::laws::{apply_op, op_result, StackOp};

verus! {

/// The tail of a chain: either nothing more, or the one node it owns.
#[derive(Debug)]
enum Link {
    Empty,
    More(Box<Node>),
}

#[derive(Debug)]
struct Node {
    elem: i32,
    next: Link,
}

/// A stack whose top is the node at the head of the chain.
#[derive(Debug)]
pub struct List {
    head: Link,
}

/// The values held by a chain, bottom first: the node a link owns is the
/// last element.
spec fn link_view(link: Link) -> Seq<i32>
    decreases link,
{
    match link {
        Link::Empty => Seq::empty(),
        Link::More(node) => link_view(node.next).push(node.elem),
    }
}

impl View for List {
    type V = Seq<i32>;

    /// The stack's contents from bottom to top.
    closed spec fn view(&self) -> Seq<i32> {
        link_view(self.head)
    }
}

impl List {
    /// An empty stack.
    pub fn new() -> (r: Self)
        ensures
            r@ == Seq::<i32>::empty(),
    {
        List { head: Link::Empty }
    }

    /// Puts `elem` on top of the stack.
    pub fn push(&mut self, elem: i32)
        ensures
            final(self)@ == old(self)@.push(elem),
            final(self)@ == apply_op(old(self)@, StackOp::Push(elem)),
    {
        let mut next = Link::Empty;
        std::mem::swap(&mut next, &mut self.head);
        let new_node: Box<Node> = Box::new(Node { elem, next });
        self.head = Link::More(new_node);
    }

    /// Takes the top value off the stack; on an empty stack returns `None`
    /// and changes nothing.
    pub fn pop(&mut self) -> (r: Option<i32>)
        ensures
            old(self)@.len() == 0 ==> r is None && final(self)@ == old(self)@,
            old(self)@.len() > 0 ==> r == Some(old(self)@.last()) && final(self)@
                == old(self)@.drop_last(),
            final(self)@ == apply_op(old(self)@, StackOp::Pop),
            r == op_result(old(self)@, StackOp::Pop),
    {
        let mut head = Link::Empty;
        std::mem::swap(&mut head, &mut self.head);
        match head {
            Link::Empty => None,
            Link::More(node) => {
                self.head = node.next;
                Some(node.elem)
            },
        }
    }
}

impl Drop for List {
    /// Releases the chain one node at a time: each node is cut off from its
    /// successor before it is freed, so no release recurses down the chain.
    fn drop(&mut self)
        ensures
            final(self)@ == Seq::<i32>::empty(),
        opens_invariants none
        no_unwind
    {
        let mut cur_link = Link::Empty;
        std::mem::swap(&mut cur_link, &mut self.head);
        loop
            decreases link_view(cur_link).len(),
        {
            match cur_link {
                Link::Empty => {
                    break;
                },
                Link::More(mut boxed_node) => {
                    let mut next = Link::Empty;
                    std::mem::swap(&mut next, &mut boxed_node.next);
                    cur_link = next;
                },
            }
        }
    }
}

} // verus!
