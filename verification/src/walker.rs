//! Walking through a tree from node to node.

use crate::tree::{Node, NodeTree, NodeView};
use vstd::prelude::*;

verus! {

/// A place in a tree: a node, with access to the tree around it.
pub struct TreeWalker<'a, T> {
    /// The tree that is walked.
    pub tree: &'a mut NodeTree<T>,
    /// The node at which the walker stands.
    pub node: Node<T>,
}

impl<'a, T> TreeWalker<'a, T> {
    /// The invariant of a walker: it stands at a node of its tree.
    pub open spec fn wf(&self) -> bool {
        &&& self.tree.wf()
        &&& self.tree@.dom().contains(self.node@)
    }

    /// The tree of the walker as it is now.
    pub open spec fn spec_tree(&self) -> NodeTree<T> {
        *self.tree
    }

    /// A walker at `start`, or `None` if `start` is not in `tree`.
    pub fn new(tree: &'a mut NodeTree<T>, start: Node<T>) -> (walker: Option<TreeWalker<'a, T>>)
        requires
            old(tree).wf(),
        ensures
            walker is Some <==> old(tree)@.dom().contains(start@),
            match walker {
                Some(w) => {
                    &&& w.wf()
                    &&& w.node == start
                    &&& *w.tree == *old(tree)
                    &&& *final(w.tree) == *final(tree)
                },
                None => *final(tree) == *old(tree),
            },
    {
        if !tree.contains(start) {
            return None;
        }
        Some(TreeWalker { tree, node: start })
    }

    /// The node at which the walker stands.
    pub fn node(&self) -> (node: Node<T>)
        ensures
            node == self.node,
    {
        self.node
    }

    /// The data of the node at which the walker stands.
    pub fn data(&self) -> (data: &T)
        requires
            self.wf(),
        ensures
            *data == self.spec_tree()@[self.node@].data,
    {
        self.tree.get(self.node).unwrap()
    }

    /// The data of the node at which the walker stands, for changing it in
    /// place. The links of the tree stay as they are.
    pub fn data_mut(&mut self) -> (data: &mut T)
        requires
            old(self).wf(),
        ensures
            *data == old(self).tree@[old(self).node@].data,
            final(self).wf(),
            final(self).node == old(self).node,
            final(self).tree@ == old(self).tree@.insert(
                old(self).node@,
                NodeView {
                    data: *final(data),
                    parent: old(self).tree@[old(self).node@].parent,
                    children: old(self).tree@[old(self).node@].children,
                },
            ),
            *final(final(self).tree) == *final(old(self).tree),
    {
        self.tree.get_mut(self.node).unwrap()
    }

    /// A walker at the parent of this walker's node, for as long as this
    /// walker is not used, or `None` if the node has no parent.
    pub fn parent<'b>(&'b mut self) -> (walker: Option<TreeWalker<'b, T>>)
        requires
            old(self).wf(),
        ensures
            walker is Some <==> old(self).tree@[old(self).node@].parent is Some,
            final(self).node == old(self).node,
            *final(final(self).tree) == *final(old(self).tree),
            match walker {
                Some(w) => {
                    &&& w.wf()
                    &&& Some(w.node@) == old(self).tree@[old(self).node@].parent
                    &&& *w.tree == *old(self).tree
                    &&& *final(w.tree) == *final(self).tree
                },
                None => *final(self).tree == *old(self).tree,
            },
    {
        proof {
            self.tree.lemma_invariant();
        }
        match self.tree.parent_of(self.node) {
            Ok(parent) => Some(TreeWalker { tree: &mut *self.tree, node: parent }),
            Err(_) => None,
        }
    }

    /// A walker through the children that the node has now, in their
    /// order, for as long as this walker is not used.
    pub fn children<'b>(&'b mut self) -> (walker: ChildWalker<'b, T>)
        requires
            old(self).wf(),
        ensures
            final(self).node == old(self).node,
            *final(final(self).tree) == *final(old(self).tree),
            walker.tree.wf(),
            walker.current == 0,
            walker.children@.len() == old(self).tree@[old(self).node@].children.len(),
            forall|i: int|
                0 <= i < walker.children@.len() ==> (#[trigger] walker.children@[i])@ == old(
                    self,
                ).tree@[old(self).node@].children[i],
            *walker.tree == *old(self).tree,
            *final(walker.tree) == *final(self).tree,
    {
        let children = match self.tree.children_of(self.node) {
            Some(children) => children,
            None => Vec::new(),
        };
        ChildWalker { children, tree: &mut *self.tree, current: 0 }
    }
}

/// A walk through the children that a node had when the walk began.
pub struct ChildWalker<'a, T> {
    /// The children, in their order.
    pub children: Vec<Node<T>>,
    /// The tree that is walked.
    pub tree: &'a mut NodeTree<T>,
    /// The position of the child that comes next.
    pub current: usize,
}

impl<'a, T> ChildWalker<'a, T> {
    /// The position of the first child from `from` on that is in `tree`, or
    /// the number of children if there is none.
    pub open spec fn next_live(children: Seq<Node<T>>, tree: NodeTree<T>, from: int) -> int
        decreases children.len() - from,
    {
        if from < 0 || from >= children.len() {
            children.len() as int
        } else if tree@.dom().contains(children[from]@) {
            from
        } else {
            Self::next_live(children, tree, from + 1)
        }
    }

    /// A walker at the next child that is still in the tree, for as long as
    /// this walk is not used, or `None` when the walk is over. Children
    /// that have left the tree since the walk began are passed by.
    pub fn walk_next<'b>(&'b mut self) -> (walker: Option<TreeWalker<'b, T>>)
        requires
            old(self).tree.wf(),
            old(self).current <= old(self).children@.len(),
        ensures
            final(self).children == old(self).children,
            *final(final(self).tree) == *final(old(self).tree),
            walker is Some <==> Self::next_live(
                old(self).children@,
                *old(self).tree,
                old(self).current as int,
            ) < old(self).children@.len(),
            match walker {
                Some(w) => {
                    &&& w.wf()
                    &&& w.node == old(self).children@[final(self).current - 1]
                    &&& final(self).current == Self::next_live(
                        old(self).children@,
                        *old(self).tree,
                        old(self).current as int,
                    ) + 1
                    &&& *w.tree == *old(self).tree
                    &&& *final(w.tree) == *final(self).tree
                },
                None => {
                    &&& final(self).current == old(self).children@.len()
                    &&& *final(self).tree == *old(self).tree
                },
            },
    {
        let ghost start = self.current as int;
        while self.current < self.children.len()
            invariant
                self.tree.wf(),
                self.children == old(self).children,
                *self.tree == *old(self).tree,
                *final(self.tree) == *final(old(self).tree),
                start == old(self).current,
                start <= self.current <= self.children@.len(),
                Self::next_live(self.children@, *self.tree, start) == Self::next_live(
                    self.children@,
                    *self.tree,
                    self.current as int,
                ),
            decreases self.children@.len() - self.current,
        {
            let child = self.children[self.current];
            let ghost at = self.current as int;
            self.current += 1;
            let found: bool = self.tree.contains(child);
            assert(Self::next_live(self.children@, *self.tree, at) == (if found {
                at
            } else {
                Self::next_live(self.children@, *self.tree, at + 1)
            }));
            if found {
                return Some(TreeWalker { tree: &mut *self.tree, node: child });
            }
        }
        None
    }
}

} // verus!
