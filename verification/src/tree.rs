//! A forest of nodes with parent and child links that stays free of cycles
//! however its nodes are re-parented.

use crate::dense::DenseHandleMap;
use crate::handle::Handle;
use crate::ordered::{set_get_index, set_insert, set_items, set_len, set_new, set_swap_remove};
use crate::seqs::{lemma_index_of, lemma_joined, lemma_pushed, lemma_swap_removed, swap_removed};
use indexmap::IndexSet;
use vstd::prelude::*;

verus! {

/// The name of one node of a [`NodeTree`].
#[derive(Debug, Hash)]
pub struct Node<T>(Handle<T>);

impl<T> View for Node<T> {
    type V = u64;

    /// The packed identifier of the node's handle.
    closed spec fn view(&self) -> u64 {
        self.0@
    }
}

impl<T> Copy for Node<T> {

}

impl<T> Clone for Node<T> {
    fn clone(&self) -> (r: Self)
        ensures
            r == *self,
    {
        Node(self.0)
    }
}

impl<T> Eq for Node<T> {

}

impl<T> PartialEq for Node<T> {
    fn eq(&self, other: &Self) -> (r: bool) {
        self.0 == other.0
    }
}

impl<T> vstd::std_specs::cmp::PartialEqSpecImpl for Node<T> {
    open spec fn obeys_eq_spec() -> bool {
        true
    }

    open spec fn eq_spec(&self, other: &Self) -> bool {
        self@ == other@
    }
}

impl<T> Node<T> {
    /// Nodes are equal exactly when their identifiers are.
    pub proof fn lemma_view_injective(self, other: Self)
        ensures
            self@ == other@ <==> self == other,
    {
        self.0.lemma_view_injective(other.0);
    }

    /// The packed identifier of the node's handle.
    pub fn id(&self) -> (raw: u64)
        ensures
            raw == self@,
    {
        self.0.id()
    }

    /// The node with the identifier `raw`.
    pub fn from_raw(raw: u64) -> (node: Self)
        ensures
            node@ == raw,
    {
        Node(Handle::from_raw(raw))
    }
}

/// The identifier of the node that an optional name gives, if it gives one.
pub open spec fn node_id<T>(node: Option<Node<T>>) -> Option<u64> {
    match node {
        Some(n) => Some(n@),
        None => None,
    }
}

/// Why a node's parent could not be given.
#[derive(Debug, PartialEq, Eq, Structural, Clone, Copy)]
pub enum GetParentError {
    /// The node is not in the tree.
    InvalidNode,
    /// The node is in the tree and has no parent.
    NoParent,
}

/// Why a node could not be given a new parent.
#[derive(Debug, PartialEq, Eq, Structural, Clone, Copy)]
pub enum SetParentError {
    /// The node to move is not in the tree.
    InvalidChild,
    /// The node to move it under is not in the tree.
    InvalidParent,
}

/// What a tree holds of one node: its data, the identifier of its parent if
/// it has one, and the identifiers of its children in their order.
pub struct NodeView<T> {
    pub data: T,
    pub parent: Option<u64>,
    pub children: Seq<u64>,
}

/// The node reached from `node` by following parent links `steps` times, if
/// the links lead that far.
pub open spec fn ancestor<T>(m: Map<u64, NodeView<T>>, node: u64, steps: nat) -> Option<u64>
    decreases steps,
{
    if !m.dom().contains(node) {
        None
    } else if steps == 0 {
        Some(node)
    } else {
        match m[node].parent {
            Some(parent) => ancestor(m, parent, (steps - 1) as nat),
            None => None,
        }
    }
}

/// Whether `node` is `top` or lies below it.
pub open spec fn in_subtree<T>(m: Map<u64, NodeView<T>>, node: u64, top: u64) -> bool {
    exists|steps: nat| ancestor(m, node, steps) == Some(top)
}

/// Every parent and every child that a node names is in the tree, and no
/// node names a child twice.
pub open spec fn links_closed<T>(m: Map<u64, NodeView<T>>) -> bool {
    &&& forall|n: u64| #[trigger]
        m.dom().contains(n) ==> {
            &&& m[n].children.no_duplicates()
            &&& m[n].parent is Some ==> m.dom().contains(m[n].parent.unwrap())
        }
    &&& forall|n: u64, c: u64|
        m.dom().contains(n) && #[trigger] m[n].children.contains(c) ==> m.dom().contains(c)
}

/// A node is among the children of another exactly when that other node is
/// its parent.
pub open spec fn symmetric<T>(m: Map<u64, NodeView<T>>) -> bool {
    forall|p: u64, c: u64|
        m.dom().contains(p) && m.dom().contains(c) ==> (#[trigger] m[p].children.contains(c)
            <==> m[c].parent == Some(p))
}

/// No node is reached from itself by following parent links.
pub open spec fn acyclic<T>(m: Map<u64, NodeView<T>>) -> bool {
    forall|n: u64, steps: nat| steps >= 1 ==> #[trigger] ancestor(m, n, steps) != Some(n)
}

/// Every node has a greater rank than its parent.
pub open spec fn ranked<T>(m: Map<u64, NodeView<T>>, rank: Map<u64, nat>) -> bool {
    forall|n: u64| #[trigger]
        m.dom().contains(n) && m[n].parent is Some ==> rank[m[n].parent.unwrap()] < rank[n]
}

/// Following one more parent link from the end of a chain of links.
pub proof fn lemma_ancestor_step<T>(m: Map<u64, NodeView<T>>, node: u64, steps: nat)
    requires
        ancestor(m, node, steps) is Some,
    ensures
        m.dom().contains(ancestor(m, node, steps).unwrap()),
        ancestor(m, node, steps + 1) == (match m[ancestor(m, node, steps).unwrap()].parent {
            Some(parent) => if m.dom().contains(parent) {
                Some(parent)
            } else {
                None
            },
            None => None,
        }),
    decreases steps,
{
    if steps == 0 {
        match m[node].parent {
            Some(parent) => {
                assert(ancestor(m, parent, 0) == if m.dom().contains(parent) {
                    Some(parent)
                } else {
                    None
                });
            },
            None => {},
        }
    } else {
        let parent = m[node].parent.unwrap();
        lemma_ancestor_step(m, parent, (steps - 1) as nat);
        assert(ancestor(m, node, steps + 1) == ancestor(m, parent, steps));
    }
}

/// A chain of links that has ended does not go on.
pub proof fn lemma_ancestor_ends<T>(m: Map<u64, NodeView<T>>, node: u64, steps: nat, more: nat)
    requires
        ancestor(m, node, steps) is None,
        more >= steps,
    ensures
        ancestor(m, node, more) is None,
    decreases steps,
{
    if m.dom().contains(node) && steps > 0 {
        match m[node].parent {
            Some(parent) => {
                lemma_ancestor_ends(m, parent, (steps - 1) as nat, (more - 1) as nat);
            },
            None => {},
        }
    }
}

/// Along a chain of parent links the rank goes down by at least one with
/// every link.
pub proof fn lemma_rank_along_chain<T>(
    m: Map<u64, NodeView<T>>,
    rank: Map<u64, nat>,
    node: u64,
    steps: nat,
)
    requires
        ranked(m, rank),
        ancestor(m, node, steps) is Some,
    ensures
        rank[ancestor(m, node, steps).unwrap()] + steps <= rank[node],
    decreases steps,
{
    if steps > 0 {
        let parent = m[node].parent.unwrap();
        lemma_rank_along_chain(m, rank, parent, (steps - 1) as nat);
    }
}

/// A forest that has a rank for every node, greater than that of the node's
/// parent, has no cycle.
pub proof fn lemma_ranked_is_acyclic<T>(m: Map<u64, NodeView<T>>, rank: Map<u64, nat>)
    requires
        ranked(m, rank),
    ensures
        acyclic(m),
{
    assert forall|n: u64, steps: nat| steps >= 1 implies #[trigger] ancestor(m, n, steps) != Some(
        n,
    ) by {
        if ancestor(m, n, steps) == Some(n) {
            lemma_rank_along_chain(m, rank, n, steps);
        }
    }
}

/// Following `first` links and then `then` more is following all of them.
pub proof fn lemma_ancestor_compose<T>(m: Map<u64, NodeView<T>>, node: u64, first: nat, then: nat)
    requires
        ancestor(m, node, first) is Some,
    ensures
        ancestor(m, node, first + then) == ancestor(
            m,
            ancestor(m, node, first).unwrap(),
            then,
        ),
    decreases first,
{
    if first > 0 {
        let parent = m[node].parent.unwrap();
        lemma_ancestor_compose(m, parent, (first - 1) as nat, then);
        assert(ancestor(m, node, first + then) == ancestor(m, parent, (first + then - 1) as nat));
    }
}

/// A node whose parent lies in a subtree lies in it too.
pub proof fn lemma_subtree_down<T>(m: Map<u64, NodeView<T>>, node: u64, top: u64)
    requires
        m.dom().contains(node),
        m[node].parent is Some,
        in_subtree(m, m[node].parent.unwrap(), top),
    ensures
        in_subtree(m, node, top),
{
    let steps = choose|steps: nat| ancestor(m, m[node].parent.unwrap(), steps) == Some(top);
    assert(ancestor(m, node, steps + 1) == Some(top));
}

/// A node of a subtree other than its top has its parent in the subtree.
pub proof fn lemma_subtree_up<T>(m: Map<u64, NodeView<T>>, node: u64, top: u64)
    requires
        in_subtree(m, node, top),
        node != top,
    ensures
        m.dom().contains(node),
        m[node].parent is Some,
        in_subtree(m, m[node].parent.unwrap(), top),
{
    let steps = choose|steps: nat| ancestor(m, node, steps) == Some(top);
    assert(ancestor(m, m[node].parent.unwrap(), (steps - 1) as nat) == Some(top));
}

/// Below a node the ranks are at least the node's own.
pub proof fn lemma_subtree_rank<T>(
    m: Map<u64, NodeView<T>>,
    rank: Map<u64, nat>,
    node: u64,
    top: u64,
)
    requires
        ranked(m, rank),
        in_subtree(m, node, top),
    ensures
        rank[top] <= rank[node],
        m.dom().contains(node),
        m.dom().contains(top),
{
    let steps = choose|steps: nat| ancestor(m, node, steps) == Some(top);
    lemma_rank_along_chain(m, rank, node, steps);
    lemma_ancestor_step(m, node, steps);
}

/// The forest in which `node` has the parent `parent`.
pub open spec fn with_parent<T>(
    m: Map<u64, NodeView<T>>,
    node: u64,
    parent: Option<u64>,
) -> Map<u64, NodeView<T>> {
    m.insert(node, NodeView { data: m[node].data, parent, children: m[node].children })
}

/// The forest in which `node` has the children `children`.
pub open spec fn with_children<T>(
    m: Map<u64, NodeView<T>>,
    node: u64,
    children: Seq<u64>,
) -> Map<u64, NodeView<T>> {
    m.insert(node, NodeView { data: m[node].data, parent: m[node].parent, children })
}

/// The forest in which `child` is taken out of the children of `parent`,
/// the last child moving to its position.
pub open spec fn child_dropped<T>(
    m: Map<u64, NodeView<T>>,
    parent: Option<u64>,
    child: u64,
) -> Map<u64, NodeView<T>> {
    match parent {
        Some(p) => with_children(
            m,
            p,
            swap_removed(m[p].children, m[p].children.index_of(child)),
        ),
        None => m,
    }
}

/// The forest in which `child` is the last of the children of `parent`.
pub open spec fn child_added<T>(
    m: Map<u64, NodeView<T>>,
    parent: Option<u64>,
    child: u64,
) -> Map<u64, NodeView<T>> {
    match parent {
        Some(p) => with_children(m, p, m[p].children.push(child)),
        None => m,
    }
}

/// Whether putting `child` under `parent` closes a loop through `entry`:
/// `entry` is `parent` or above it, and is itself a child of `child`. A node
/// put under itself closes a loop through itself.
pub open spec fn is_cycle_entry<T>(
    m: Map<u64, NodeView<T>>,
    child: u64,
    parent: u64,
    entry: u64,
) -> bool {
    if parent == child {
        entry == child
    } else {
        &&& m.dom().contains(entry)
        &&& m[entry].parent == Some(child)
        &&& in_subtree(m, parent, entry)
    }
}

/// The node through which putting `child` under `parent` closes a loop, if
/// it closes one.
pub open spec fn cycle_entry<T>(m: Map<u64, NodeView<T>>, child: u64, parent: u64) -> Option<u64> {
    if exists|entry: u64| is_cycle_entry(m, child, parent, entry) {
        Some(choose|entry: u64| is_cycle_entry(m, child, parent, entry))
    } else {
        None
    }
}

/// The forest after `child` is given the parent `parent`.
///
/// `child` leaves the children of its former parent and becomes the last
/// child of the new one. If that closes a loop, the loop is opened where it
/// enters `child`: the child of `child` through which the loop runs takes
/// the former parent of `child` as its parent and becomes the last of that
/// node's children, or a root if `child` had no parent.
pub open spec fn reparented<T>(
    m: Map<u64, NodeView<T>>,
    child: u64,
    parent: Option<u64>,
) -> Map<u64, NodeView<T>> {
    let former = m[child].parent;
    let moved = child_dropped(with_parent(m, child, parent), former, child);
    match parent {
        None => moved,
        Some(p) => {
            let attached = child_added(moved, Some(p), child);
            match cycle_entry(m, child, p) {
                None => attached,
                Some(entry) => child_added(
                    child_dropped(with_parent(attached, entry, former), Some(child), entry),
                    former,
                    entry,
                ),
            }
        },
    }
}

/// The ranks after `child` is given the parent `parent`: what moves under
/// `parent` with `child` is ranked above `parent`.
pub open spec fn reranked<T>(
    m: Map<u64, NodeView<T>>,
    rank: Map<u64, nat>,
    child: u64,
    parent: Option<u64>,
) -> Map<u64, nat> {
    match parent {
        None => rank,
        Some(p) => {
            let entry = cycle_entry(m, child, p);
            Map::new(
                |n: u64| true,
                |n: u64|
                    if in_subtree(m, n, child) && !(entry is Some && in_subtree(
                        m,
                        n,
                        entry.unwrap(),
                    )) {
                        rank[n] + rank[p] + 1
                    } else {
                        rank[n]
                    },
            )
        },
    }
}

/// At most one node is the entry of a loop that a new parent would close.
pub proof fn lemma_cycle_entry_unique<T>(
    m: Map<u64, NodeView<T>>,
    rank: Map<u64, nat>,
    child: u64,
    parent: u64,
    a: u64,
    b: u64,
)
    requires
        ranked(m, rank),
        m.dom().contains(child),
        is_cycle_entry(m, child, parent, a),
        is_cycle_entry(m, child, parent, b),
    ensures
        a == b,
{
    if parent != child {
        let i = choose|steps: nat| ancestor(m, parent, steps) == Some(a);
        let j = choose|steps: nat| ancestor(m, parent, steps) == Some(b);
        lemma_ancestor_step(m, parent, i);
        lemma_ancestor_step(m, parent, j);
        lemma_ranked_is_acyclic(m, rank);
        if i < j {
            lemma_ancestor_compose(m, parent, i + 1, (j - i) as nat);
            assert(i + 1 + (j - i) as nat == j + 1);
            assert(ancestor(m, child, (j - i) as nat) == Some(child));
        } else if j < i {
            lemma_ancestor_compose(m, parent, j + 1, (i - j) as nat);
            assert(j + 1 + (i - j) as nat == i + 1);
            assert(ancestor(m, child, (i - j) as nat) == Some(child));
        }
    }
}

/// Giving a node a new parent keeps the forest in order: the links stay
/// closed, parent and child links agree, and the new ranks fit the new
/// links.
#[verifier::rlimit(30)]
pub proof fn lemma_reparented_invariant<T>(
    m: Map<u64, NodeView<T>>,
    rank: Map<u64, nat>,
    child: u64,
    parent: Option<u64>,
)
    requires
        links_closed(m),
        symmetric(m),
        ranked(m, rank),
        m.dom().contains(child),
        parent is Some ==> m.dom().contains(parent.unwrap()),
    ensures
        reparented(m, child, parent).dom() == m.dom(),
        links_closed(reparented(m, child, parent)),
        symmetric(reparented(m, child, parent)),
        ranked(reparented(m, child, parent), reranked(m, rank, child, parent)),
        forall|n: u64| #[trigger]
            m.dom().contains(n) ==> reparented(m, child, parent)[n].data == m[n].data,
{
    let former = m[child].parent;
    let a1 = with_parent(m, child, parent);
    let a2 = child_dropped(a1, former, child);
    assert(a1.dom() =~= m.dom());
    assert(a2.dom() =~= m.dom());
    // the node leaves the children of its former parent
    if former is Some {
        let q = former.unwrap();
        assert(q != child);
        assert(m[q].children.contains(child));
        lemma_swap_removed(m[q].children, child);
    }
    assert forall|n: u64, c: u64| m.dom().contains(n) implies (#[trigger] a2[n].children.contains(
        c,
    ) <==> m[n].children.contains(c) && !(former == Some(n) && c == child)) by {
        if m[n].children.contains(c) && c == child {
            assert(m.dom().contains(c));
        }
    }
    assert forall|n: u64| #[trigger] m.dom().contains(n) implies a2[n].children.no_duplicates()
        && a2[n].data == m[n].data && a2[n].parent == (if n == child {
        parent
    } else {
        m[n].parent
    }) by {}
    match parent {
        None => {
            assert(links_closed(a2));
            assert(symmetric(a2));
            assert(ranked(a2, rank));
        },
        Some(p) => {
            let a3 = child_added(a2, Some(p), child);
            assert(a3.dom() =~= m.dom());
            assert(!a2[p].children.contains(child));
            lemma_pushed(a2[p].children, child);
            assert forall|n: u64, c: u64| m.dom().contains(n) implies (
            #[trigger] a3[n].children.contains(c) <==> a2[n].children.contains(c) || (n == p && c
                == child)) by {}
            assert forall|n: u64| #[trigger] m.dom().contains(n) implies a3[n].children.no_duplicates()
                && a3[n].data == m[n].data && a3[n].parent == a2[n].parent by {}
            let found = cycle_entry(m, child, p);
            let after = reparented(m, child, parent);
            let ranks = reranked(m, rank, child, parent);
            match found {
                None => {
                    assert(after == a3);
                    assert(links_closed(a3));
                    assert(symmetric(a3));
                    assert(p != child) by {
                        if p == child {
                            assert(is_cycle_entry(m, child, p, child));
                        }
                    }
                    // no loop: the new parent is not below the node
                    assert(!in_subtree(m, p, child)) by {
                        if in_subtree(m, p, child) {
                            lemma_entry_exists(m, child, p);
                        }
                    }
                    assert forall|n: u64| #[trigger]
                        a3.dom().contains(n) && a3[n].parent is Some implies ranks[a3[n].parent.unwrap()]
                        < ranks[n] by {
                        let z = a3[n].parent.unwrap();
                        if n == child {
                            assert(ancestor(m, child, 0) == Some(child));
                            assert(in_subtree(m, child, child));
                        } else {
                            assert(m[n].parent == Some(z));
                            if in_subtree(m, n, child) {
                                lemma_subtree_up(m, n, child);
                            } else if in_subtree(m, z, child) {
                                lemma_subtree_down(m, n, child);
                            }
                        }
                    }
                },
                Some(e) => {
                    assert(is_cycle_entry(m, child, p, e));
                    let a4 = with_parent(a3, e, former);
                    let a5 = child_dropped(a4, Some(child), e);
                    let a6 = child_added(a5, former, e);
                    assert(after == a6);
                    assert(a4.dom() =~= m.dom());
                    assert(a5.dom() =~= m.dom());
                    assert(a6.dom() =~= m.dom());
                    assert(m.dom().contains(e));
                    // the entry is among the children of the node
                    assert(a4[child].children.contains(e)) by {
                        if p != child {
                            assert(m[child].children.contains(e));
                        }
                    }
                    assert(a4[child].children.no_duplicates());
                    lemma_swap_removed(a4[child].children, e);
                    assert forall|n: u64, c: u64| m.dom().contains(n) implies (
                    #[trigger] a5[n].children.contains(c) <==> a3[n].children.contains(c) && !(n
                        == child && c == e)) by {}
                    assert forall|n: u64| #[trigger]
                        m.dom().contains(n) implies a5[n].children.no_duplicates() && a5[n].data
                        == m[n].data && a5[n].parent == (if n == e {
                        former
                    } else {
                        a3[n].parent
                    }) by {}
                    if former is Some {
                        let q = former.unwrap();
                        assert(!a5[q].children.contains(e)) by {
                            if p != child {
                                assert(m[e].parent == Some(child));
                                assert(q != child);
                            }
                        }
                        lemma_pushed(a5[q].children, e);
                    }
                    assert forall|n: u64, c: u64| m.dom().contains(n) implies (
                    #[trigger] a6[n].children.contains(c) <==> a5[n].children.contains(c) || (
                    former == Some(n) && c == e)) by {}
                    assert forall|n: u64| #[trigger]
                        m.dom().contains(n) implies a6[n].children.no_duplicates() && a6[n].data
                        == m[n].data && a6[n].parent == a5[n].parent by {}
                    assert(links_closed(a6));
                    assert(symmetric(a6));
                    // the ranks
                    if p == child {
                        assert(e == child);
                        assert forall|n: u64| #[trigger]
                            a6.dom().contains(n) && a6[n].parent is Some implies ranks[a6[n].parent.unwrap()]
                            < ranks[n] by {
                            assert(a6[n].parent == m[n].parent);
                        }
                    } else {
                        assert(in_subtree(m, p, e));
                        assert(ancestor(m, child, 0) == Some(child));
                        assert(in_subtree(m, child, child));
                        assert(ancestor(m, e, 0) == Some(e));
                        assert(in_subtree(m, e, e));
                        assert(!in_subtree(m, child, e)) by {
                            if in_subtree(m, child, e) {
                                lemma_subtree_rank(m, rank, child, e);
                            }
                        }
                        if former is Some {
                            let q = former.unwrap();
                            assert(!in_subtree(m, q, child)) by {
                                if in_subtree(m, q, child) {
                                    lemma_subtree_rank(m, rank, q, child);
                                }
                            }
                        }
                        assert forall|n: u64| #[trigger]
                            a6.dom().contains(n) && a6[n].parent is Some implies ranks[a6[n].parent.unwrap()]
                            < ranks[n] by {
                            let z = a6[n].parent.unwrap();
                            if n == child {
                                assert(z == p);
                            } else if n == e {
                                assert(Some(z) == former);
                            } else {
                                assert(m[n].parent == Some(z));
                                if in_subtree(m, z, e) {
                                    lemma_subtree_down(m, n, e);
                                }
                                if in_subtree(m, n, e) {
                                    lemma_subtree_up(m, n, e);
                                }
                                if in_subtree(m, z, child) {
                                    lemma_subtree_down(m, n, child);
                                }
                                if in_subtree(m, n, child) {
                                    lemma_subtree_up(m, n, child);
                                }
                            }
                        }
                    }
                },
            }
        },
    }
}

/// A new parent that lies below the node closes a loop, and the loop has an
/// entry.
pub proof fn lemma_entry_exists<T>(m: Map<u64, NodeView<T>>, child: u64, parent: u64)
    requires
        in_subtree(m, parent, child),
        parent != child,
    ensures
        exists|entry: u64| is_cycle_entry(m, child, parent, entry),
{
    let steps = choose|steps: nat| ancestor(m, parent, steps) == Some(child);
    assert(steps >= 1) by {
        if steps == 0 {
            assert(ancestor(m, parent, 0) == Some(parent));
        }
    }
    let before = (steps - 1) as nat;
    assert(ancestor(m, parent, before) is Some) by {
        if ancestor(m, parent, before) is None {
            lemma_ancestor_ends(m, parent, before, steps);
        }
    }
    lemma_ancestor_step(m, parent, before);
    let entry = ancestor(m, parent, before).unwrap();
    assert(is_cycle_entry(m, child, parent, entry));
}

/// The forest after `node` is taken out: its children take its parent as
/// theirs and follow, in their order, the other children of that parent.
pub open spec fn removed<T>(m: Map<u64, NodeView<T>>, node: u64) -> Map<u64, NodeView<T>> {
    Map::new(
        |n: u64| m.dom().contains(n) && n != node,
        |n: u64|
            NodeView {
                data: m[n].data,
                parent: if m[n].parent == Some(node) {
                    m[node].parent
                } else {
                    m[n].parent
                },
                children: if m[node].parent == Some(n) {
                    swap_removed(m[n].children, m[n].children.index_of(node))
                        + m[node].children
                } else {
                    m[n].children
                },
            },
    )
}

/// Taking a node out keeps the forest in order, under the ranks it had.
pub proof fn lemma_removed_invariant<T>(m: Map<u64, NodeView<T>>, rank: Map<u64, nat>, node: u64)
    requires
        links_closed(m),
        symmetric(m),
        ranked(m, rank),
        m.dom().contains(node),
    ensures
        links_closed(removed(m, node)),
        symmetric(removed(m, node)),
        ranked(removed(m, node), rank),
{
    let after = removed(m, node);
    let kids = m[node].children;
    assert(m[node].parent != Some(node));
    assert(!kids.contains(node)) by {
        if kids.contains(node) {
            assert(m[node].parent == Some(node));
        }
    }
    if m[node].parent is Some {
        let q = m[node].parent.unwrap();
        assert(m[q].children.contains(node));
        lemma_swap_removed(m[q].children, node);
        let rest = swap_removed(m[q].children, m[q].children.index_of(node));
        assert forall|c: u64| !(rest.contains(c) && kids.contains(c)) by {
            if rest.contains(c) && kids.contains(c) {
                assert(m.dom().contains(c));
                assert(m[c].parent == Some(q));
                assert(m[c].parent == Some(node));
            }
        }
        lemma_joined(rest, kids);
        assert(after[q].children == rest + kids);
    }
    assert forall|n: u64, c: u64| after.dom().contains(n) implies (
    #[trigger] after[n].children.contains(c) <==> (m[n].children.contains(c) && c != node) || (
    m[node].parent == Some(n) && kids.contains(c))) by {}
    assert forall|n: u64| #[trigger] after.dom().contains(n) implies {
        &&& after[n].children.no_duplicates()
        &&& after[n].parent is Some ==> after.dom().contains(after[n].parent.unwrap())
    } by {
        assert(m.dom().contains(n));
    }
    assert forall|n: u64, c: u64|
        after.dom().contains(n) && #[trigger] after[n].children.contains(c) implies after.dom().contains(
        c,
    ) by {
        if kids.contains(c) {
            assert(m.dom().contains(c));
        }
    }
    assert forall|p: u64, c: u64| after.dom().contains(p) && after.dom().contains(c) implies (
    #[trigger] after[p].children.contains(c) <==> after[c].parent == Some(p)) by {
        assert(m[p].children.contains(c) <==> m[c].parent == Some(p));
        assert(kids.contains(c) <==> m[c].parent == Some(node));
    }
    assert forall|n: u64| #[trigger]
        after.dom().contains(n) && after[n].parent is Some implies rank[after[n].parent.unwrap()]
        < rank[n] by {
        assert(m.dom().contains(n));
    }
}

/// The identifiers of a list of nodes.
pub open spec fn ids_of<T>(nodes: Seq<Node<T>>) -> Seq<u64> {
    Seq::new(nodes.len(), |i: int| nodes[i]@)
}

/// The position in `list` of the parent of the node at position `at`.
pub open spec fn parent_position<T>(m: Map<u64, NodeView<T>>, list: Seq<u64>, at: int) -> int {
    list.index_of(m[list[at]].parent.unwrap())
}

/// The position of the node at position `at` of `list` among the children
/// of its parent.
pub open spec fn child_position<T>(m: Map<u64, NodeView<T>>, list: Seq<u64>, at: int) -> int {
    m[m[list[at]].parent.unwrap()].children.index_of(list[at])
}

/// Whether `list` is in level order below its first node: the children of
/// a node that comes earlier come earlier, and the children of one node
/// come in their order.
pub open spec fn in_level_order<T>(m: Map<u64, NodeView<T>>, list: Seq<u64>) -> bool {
    forall|a: int, b: int|
        1 <= a < b < list.len() ==> {
            ||| #[trigger] parent_position(m, list, a) < #[trigger] parent_position(m, list, b)
            ||| parent_position(m, list, a) == parent_position(m, list, b) && child_position(
                m,
                list,
                a,
            ) < child_position(m, list, b)
        }
}

/// A list that starts with `top` and holds the children of each of its
/// nodes holds the whole subtree of `top`.
pub proof fn lemma_closed_list_holds_subtree<T>(
    m: Map<u64, NodeView<T>>,
    list: Seq<u64>,
    top: u64,
    node: u64,
    steps: nat,
)
    requires
        symmetric(m),
        links_closed(m),
        list.len() > 0,
        list[0] == top,
        forall|j: int, c: u64|
            0 <= j < list.len() && m.dom().contains(list[j]) && #[trigger] m[list[j]].children.contains(
                c,
            ) ==> list.contains(c),
        forall|j: int| 0 <= j < list.len() ==> m.dom().contains(#[trigger] list[j]),
        ancestor(m, node, steps) == Some(top),
    ensures
        list.contains(node),
    decreases steps,
{
    if steps == 0 {
        assert(list[0] == node);
    } else {
        let parent = m[node].parent.unwrap();
        lemma_closed_list_holds_subtree(m, list, top, parent, (steps - 1) as nat);
        let j = choose|j: int| 0 <= j < list.len() && list[j] == parent;
        assert(m.dom().contains(list[j]));
        assert(m[list[j]].children.contains(node));
    }
}

/// A list without repeats of nodes of a forest is no longer than the
/// forest has nodes.
pub proof fn lemma_list_fits<T>(m: Map<u64, NodeView<T>>, list: Seq<u64>)
    requires
        m.dom().finite(),
        list.no_duplicates(),
        forall|j: int| 0 <= j < list.len() ==> m.dom().contains(#[trigger] list[j]),
    ensures
        list.len() <= m.dom().len(),
{
    list.unique_seq_to_set();
    assert(list.to_set().subset_of(m.dom())) by {
        assert forall|x: u64| list.to_set().contains(x) implies m.dom().contains(x) by {
            let j = choose|j: int| 0 <= j < list.len() && list[j] == x;
            assert(m.dom().contains(list[j]));
        }
    }
    vstd::set_lib::lemma_len_subset(list.to_set(), m.dom());
}

/// What a tree stores for one node.
pub struct NodeData<T> {
    data: T,
    parent: Option<Node<T>>,
    children: IndexSet<u64>,
}

impl<T> View for NodeData<T> {
    type V = NodeView<T>;

    closed spec fn view(&self) -> NodeView<T> {
        NodeView {
            data: self.data,
            parent: node_id(self.parent),
            children: set_items(self.children),
        }
    }
}

impl<T> NodeData<T> {
    fn new(data: T) -> (node: Self)
        ensures
            node@ == (NodeView { data, parent: None, children: Seq::<u64>::empty() }),
    {
        NodeData { data, parent: None, children: set_new() }
    }
}

/// A forest: nodes that carry data of type `T`, each with at most one
/// parent and with its children in the order in which they were attached.
pub struct NodeTree<T> {
    nodes: DenseHandleMap<NodeData<T>>,
    rank: Ghost<Map<u64, nat>>,
}

impl<T> View for NodeTree<T> {
    type V = Map<u64, NodeView<T>>;

    /// What the tree holds of each node, under the node's identifier.
    closed spec fn view(&self) -> Map<u64, NodeView<T>> {
        Map::new(|raw: u64| self.nodes@.dom().contains(raw), |raw: u64| self.nodes@[raw]@)
    }
}

impl<T> NodeTree<T> {
    /// The invariant of the tree: links lead to nodes of the tree only,
    /// parent and child links agree, and no chain of parent links comes back
    /// to where it started.
    pub closed spec fn wf(&self) -> bool {
        &&& self.nodes.wf()
        &&& links_closed(self@)
        &&& symmetric(self@)
        &&& ranked(self@, self.rank@)
        &&& forall|n: u64| self.rank@.dom().contains(n)
    }

    /// Whether a node can be added: its index still fits in a handle.
    pub closed spec fn spec_has_room(&self) -> bool {
        self.nodes.spec_has_room()
    }

    /// In every tree the links are closed, parent and child links agree, and
    /// no node is its own ancestor.
    pub proof fn lemma_invariant(&self)
        requires
            self.wf(),
        ensures
            links_closed(self@),
            symmetric(self@),
            acyclic(self@),
    {
        lemma_ranked_is_acyclic(self@, self.rank@);
    }

    /// The loop that a new parent would close has one entry: a node that
    /// is an entry is the one that `set_parent` moves.
    pub proof fn lemma_cycle_entry_is(&self, child: u64, parent: u64, entry: u64)
        requires
            self.wf(),
            self@.dom().contains(child),
            is_cycle_entry(self@, child, parent, entry),
        ensures
            cycle_entry(self@, child, parent) == Some(entry),
    {
        let found = choose|e: u64| is_cycle_entry(self@, child, parent, e);
        lemma_cycle_entry_unique(self@, self.rank@, child, parent, found, entry);
    }

    /// A new parent that is neither the node nor below it closes no loop.
    pub proof fn lemma_no_cycle_entry(&self, child: u64, parent: u64)
        requires
            self.wf(),
            parent != child,
            !in_subtree(self@, parent, child),
        ensures
            cycle_entry(self@, child, parent) is None,
    {
        assert forall|e: u64| !is_cycle_entry(self@, child, parent, e) by {
            if is_cycle_entry(self@, child, parent, e) {
                let steps = choose|steps: nat| ancestor(self@, parent, steps) == Some(e);
                self.lemma_invariant();
                lemma_ancestor_step(self@, parent, steps);
                assert(ancestor(self@, parent, steps + 1) == Some(child));
            }
        }
    }

    /// A tree with fewer nodes than a handle has indices has room for one
    /// more.
    pub proof fn lemma_room(&self)
        requires
            self.wf(),
        ensures
            self@.dom().finite(),
            self@.dom().len() <= u32::MAX ==> self.spec_has_room(),
    {
        self.nodes.lemma_room();
        assert(self@.dom() =~= self.nodes@.dom());
    }

    /// A tree without nodes.
    pub fn new() -> (tree: Self)
        ensures
            tree.wf(),
            tree@ == Map::<u64, NodeView<T>>::empty(),
            tree.spec_has_room(),
    {
        let tree = NodeTree {
            nodes: DenseHandleMap::new(),
            rank: Ghost(Map::new(|n: u64| true, |n: u64| 0nat)),
        };
        assert(tree@ =~= Map::<u64, NodeView<T>>::empty());
        tree
    }

    /// Whether `node` is in the tree.
    pub fn contains(&self, node: Node<T>) -> (found: bool)
        requires
            self.wf(),
        ensures
            found == self@.dom().contains(node@),
    {
        self.nodes.contains(node.0.into_type())
    }

    /// The data of `node`, or `None` if it is not in the tree.
    pub fn get(&self, node: Node<T>) -> (data: Option<&T>)
        requires
            self.wf(),
        ensures
            data == (if self@.dom().contains(node@) {
                Some(&self@[node@].data)
            } else {
                None
            }),
    {
        match self.nodes.get(node.0.into_type()) {
            Some(entry) => Some(&entry.data),
            None => None,
        }
    }

    /// The data of `node`, for changing it in place, or `None` if it is not
    /// in the tree. The links of the tree stay as they are.
    pub fn get_mut(&mut self, node: Node<T>) -> (data: Option<&mut T>)
        requires
            old(self).wf(),
        ensures
            data is Some <==> old(self)@.dom().contains(node@),
            match data {
                Some(r) => {
                    &&& *r == old(self)@[node@].data
                    &&& final(self).wf()
                    &&& final(self).spec_has_room() == old(self).spec_has_room()
                    &&& final(self)@ == old(self)@.insert(
                        node@,
                        NodeView {
                            data: *final(r),
                            parent: old(self)@[node@].parent,
                            children: old(self)@[node@].children,
                        },
                    )
                },
                None => *final(self) == *old(self),
            },
    {
        let ghost before = *self;
        match self.nodes.get_mut(node.0.into_type()) {
            Some(entry) => {
                let data = &mut entry.data;
                proof {
                    let after = after_borrow(*self);
                    assert(after@ =~= before@.insert(
                        node@,
                        NodeView {
                            data: *final(data),
                            parent: before@[node@].parent,
                            children: before@[node@].children,
                        },
                    ));
                    assert forall|n: u64| #[trigger] after@.dom().contains(n) implies after@[n].parent
                        == before@[n].parent && after@[n].children == before@[n].children by {}
                    assert(links_closed(after@)) by {
                        assert forall|n: u64| #[trigger] after@.dom().contains(n) implies {
                            &&& after@[n].children.no_duplicates()
                            &&& after@[n].parent is Some ==> after@.dom().contains(
                                after@[n].parent.unwrap(),
                            )
                        } by {
                            assert(before@.dom().contains(n));
                        }
                    }
                    assert(symmetric(after@)) by {
                        assert forall|p: u64, c: u64|
                            after@.dom().contains(p) && after@.dom().contains(c) implies (
                        #[trigger] after@[p].children.contains(c) <==> after@[c].parent == Some(
                            p,
                        )) by {
                            assert(before@[p].children.contains(c) <==> before@[c].parent == Some(
                                p,
                            ));
                        }
                    }
                    assert(ranked(after@, after.rank@)) by {
                        assert forall|n: u64| #[trigger]
                            after@.dom().contains(n) && after@[n].parent is Some implies after.rank@[after@[n].parent.unwrap()]
                            < after.rank@[n] by {
                            assert(before@.dom().contains(n));
                        }
                    }
                }
                Some(data)
            },
            None => None,
        }
    }

    /// Whether a node can be added.
    pub fn has_room(&self) -> (room: bool)
        requires
            self.wf(),
        ensures
            room == self.spec_has_room(),
    {
        self.nodes.has_room()
    }

    /// The parent of `node`.
    pub fn parent_of(&self, node: Node<T>) -> (parent: Result<Node<T>, GetParentError>)
        requires
            self.wf(),
        ensures
            !self@.dom().contains(node@) <==> parent == Err::<Node<T>, GetParentError>(
                GetParentError::InvalidNode,
            ),
            self@.dom().contains(node@) && self@[node@].parent is None <==> parent == Err::<
                Node<T>,
                GetParentError,
            >(GetParentError::NoParent),
            parent is Ok <==> self@.dom().contains(node@) && self@[node@].parent is Some,
            parent is Ok ==> parent.unwrap()@ == self@[node@].parent.unwrap(),
    {
        match self.nodes.get(node.0.into_type()) {
            Some(entry) => match entry.parent {
                Some(parent) => Ok(parent),
                None => Err(GetParentError::NoParent),
            },
            None => Err(GetParentError::InvalidNode),
        }
    }

    /// The children of `node` in their order, or `None` if it is not in the
    /// tree.
    pub fn children_of(&self, node: Node<T>) -> (children: Option<Vec<Node<T>>>)
        requires
            self.wf(),
        ensures
            children is Some <==> self@.dom().contains(node@),
            children is Some ==> {
                &&& children.unwrap()@.len() == self@[node@].children.len()
                &&& forall|i: int|
                    0 <= i < children.unwrap()@.len() ==> (#[trigger] children.unwrap()@[i])@
                        == self@[node@].children[i]
            },
    {
        match self.nodes.get(node.0.into_type()) {
            Some(entry) => {
                let mut children: Vec<Node<T>> = Vec::new();
                let count: usize = set_len(&entry.children);
                let mut i: usize = 0;
                while i < count
                    invariant
                        count == set_items(entry.children).len(),
                        i <= count,
                        children@.len() == i,
                        forall|k: int|
                            0 <= k < i ==> (#[trigger] children@[k])@ == set_items(
                                entry.children,
                            )[k],
                    decreases count - i,
                {
                    match set_get_index(&entry.children, i) {
                        Some(raw) => {
                            children.push(Node::from_raw(raw));
                        },
                        None => {},
                    }
                    i += 1;
                }
                Some(children)
            },
            None => None,
        }
    }

    /// Adds a node that carries `data`, without parent or children, and
    /// returns its name.
    pub fn insert(&mut self, data: T) -> (node: Node<T>)
        requires
            old(self).wf(),
            old(self).spec_has_room(),
        ensures
            final(self).wf(),
            !old(self)@.dom().contains(node@),
            final(self)@ == old(self)@.insert(
                node@,
                NodeView { data, parent: None, children: Seq::<u64>::empty() },
            ),
            final(self)@.dom().finite(),
            final(self)@.dom().len() == old(self)@.dom().len() + 1,
            final(self)@.dom().len() <= u32::MAX ==> final(self).spec_has_room(),
    {
        let ghost before = *self;
        let handle = self.nodes.insert(NodeData::new(data));
        let node: Node<T> = Node(handle.into_type());
        proof {
            self.rank@ = self.rank@.insert(node@, 0);
            assert(self@ =~= before@.insert(
                node@,
                NodeView { data, parent: None, children: Seq::<u64>::empty() },
            ));
            assert forall|n: u64| #[trigger]
                self@.dom().contains(n) && self@[n].parent is Some implies self.rank@[self@[n].parent.unwrap()]
                < self.rank@[n] by {
                assert(before@.dom().contains(n));
                assert(before@.dom().contains(before@[n].parent.unwrap()));
            }
            assert forall|p: u64, c: u64|
                self@.dom().contains(p) && self@.dom().contains(c) implies (
                #[trigger] self@[p].children.contains(c) <==> self@[c].parent == Some(p)) by {
                if p != node@ && c == node@ {
                    assert(before@.dom().contains(p));
                }
            }
        }
        proof {
            self.lemma_room();
            before.nodes.lemma_order();
            assert(before@.dom() =~= before.nodes@.dom());
            assert(self@.dom() =~= self.nodes@.dom());
            self.nodes.lemma_order();
        }
        node
    }

    /// Sets the parent link of `node` and nothing else.
    fn put_parent(&mut self, node: Node<T>, parent: Option<Node<T>>)
        requires
            old(self).nodes.wf(),
            old(self)@.dom().contains(node@),
        ensures
            final(self).nodes.wf(),
            final(self)@ == with_parent(old(self)@, node@, node_id(parent)),
            final(self).rank@ == old(self).rank@,
            final(self).spec_has_room() == old(self).spec_has_room(),
    {
        let ghost before = *self;
        match self.nodes.get_mut(node.0.into_type()) {
            Some(entry) => {
                entry.parent = parent;
            },
            None => {},
        }
        assert(self@ =~= with_parent(before@, node@, node_id(parent)));
    }

    /// Takes `child` out of the children of `parent`.
    fn drop_child(&mut self, parent: Node<T>, child: Node<T>)
        requires
            old(self).nodes.wf(),
            old(self)@.dom().contains(parent@),
            old(self)@[parent@].children.contains(child@),
        ensures
            final(self).nodes.wf(),
            final(self)@ == child_dropped(old(self)@, Some(parent@), child@),
            final(self).rank@ == old(self).rank@,
            final(self).spec_has_room() == old(self).spec_has_room(),
    {
        let ghost before = *self;
        match self.nodes.get_mut(parent.0.into_type()) {
            Some(entry) => {
                set_swap_remove(&mut entry.children, child.id());
            },
            None => {},
        }
        assert(self@ =~= child_dropped(before@, Some(parent@), child@));
    }

    /// Puts `child` at the end of the children of `parent`.
    fn add_child(&mut self, parent: Node<T>, child: Node<T>)
        requires
            old(self).nodes.wf(),
            old(self)@.dom().contains(parent@),
            !old(self)@[parent@].children.contains(child@),
        ensures
            final(self).nodes.wf(),
            final(self)@ == child_added(old(self)@, Some(parent@), child@),
            final(self).rank@ == old(self).rank@,
            final(self).spec_has_room() == old(self).spec_has_room(),
    {
        let ghost before = *self;
        match self.nodes.get_mut(parent.0.into_type()) {
            Some(entry) => {
                set_insert(&mut entry.children, child.id());
            },
            None => {},
        }
        assert(self@ =~= child_added(before@, Some(parent@), child@));
    }

    /// Walks up from `parent` and returns the node through which putting
    /// `child` under `parent` would close a loop, if it would close one.
    pub fn find_cycle_entry(&self, child: Node<T>, parent: Node<T>) -> (entry: Option<Node<T>>)
        requires
            self.wf(),
            self@.dom().contains(child@),
            self@.dom().contains(parent@),
        ensures
            node_id(entry) == cycle_entry(self@, child@, parent@),
    {
        if parent == child {
            assert(is_cycle_entry(self@, child@, parent@, child@));
            return Some(child);
        }
        let mut current = parent;
        let ghost mut steps: nat = 0;
        loop
            invariant
                self.wf(),
                parent@ != child@,
                self@.dom().contains(child@),
                self@.dom().contains(current@),
                ancestor(self@, parent@, steps) == Some(current@),
                forall|j: nat| j <= steps ==> ancestor(self@, parent@, j) != Some(child@),
            decreases self.rank@[current@],
        {
            let next = match self.nodes.get(current.0.into_type()) {
                Some(entry) => entry.parent,
                None => None,
            };
            proof {
                lemma_ancestor_step(self@, parent@, steps);
            }
            match next {
                None => {
                    proof {
                        assert forall|e: u64| !is_cycle_entry(self@, child@, parent@, e) by {
                            if is_cycle_entry(self@, child@, parent@, e) {
                                let j = choose|j: nat| ancestor(self@, parent@, j) == Some(e);
                                lemma_ancestor_step(self@, parent@, j);
                                if j + 1 > steps {
                                    lemma_ancestor_ends(self@, parent@, steps + 1, j + 1);
                                }
                            }
                        }
                    }
                    return None;
                },
                Some(above) => {
                    if above == child {
                        proof {
                            assert(in_subtree(self@, parent@, current@));
                            assert(is_cycle_entry(self@, child@, parent@, current@));
                            let e = choose|e: u64| is_cycle_entry(self@, child@, parent@, e);
                            lemma_cycle_entry_unique(
                                self@,
                                self.rank@,
                                child@,
                                parent@,
                                e,
                                current@,
                            );
                        }
                        return Some(current);
                    }
                    proof {
                        assert forall|j: nat| j <= steps + 1 implies ancestor(self@, parent@, j)
                            != Some(child@) by {}
                        steps = steps + 1;
                    }
                    current = above;
                },
            }
        }
    }

    /// Gives `child` the parent `parent_option`, or makes it a root.
    ///
    /// `child` leaves the children of its former parent and becomes the last
    /// child of the new one. Where the new parent lies below `child`, the
    /// branch of `child` that holds it is moved to where `child` was, so
    /// that no loop comes about. Nothing changes if one of the two nodes is
    /// not in the tree.
    pub fn set_parent(&mut self, child: Node<T>, parent_option: Option<Node<T>>) -> (done: Result<
        (),
        SetParentError,
    >)
        requires
            old(self).wf(),
        ensures
            final(self).wf(),
            final(self).spec_has_room() == old(self).spec_has_room(),
            match done {
                Err(SetParentError::InvalidParent) => {
                    &&& parent_option is Some
                    &&& !old(self)@.dom().contains(parent_option.unwrap()@)
                    &&& final(self)@ == old(self)@
                },
                Err(SetParentError::InvalidChild) => {
                    &&& parent_option is Some ==> old(self)@.dom().contains(
                        parent_option.unwrap()@,
                    )
                    &&& !old(self)@.dom().contains(child@)
                    &&& final(self)@ == old(self)@
                },
                Ok(()) => {
                    &&& parent_option is Some ==> old(self)@.dom().contains(
                        parent_option.unwrap()@,
                    )
                    &&& old(self)@.dom().contains(child@)
                    &&& final(self)@ == reparented(old(self)@, child@, node_id(parent_option))
                },
            },
    {
        let ghost before = *self;
        match parent_option {
            Some(parent) => {
                if !self.contains(parent) {
                    return Err(SetParentError::InvalidParent);
                }
            },
            None => {},
        }
        let former: Option<Node<T>> = match self.nodes.get(child.0.into_type()) {
            Some(entry) => entry.parent,
            None => {
                return Err(SetParentError::InvalidChild);
            },
        };
        let found: Option<Node<T>> = match parent_option {
            Some(parent) => self.find_cycle_entry(child, parent),
            None => None,
        };
        proof {
            lemma_reparented_invariant(before@, before.rank@, child@, node_id(parent_option));
            assert(before@.dom().contains(child@));
            assert(before@[child@].parent == node_id(former));
            if former is Some {
                assert(before.rank@[former.unwrap()@] < before.rank@[child@]);
                assert(former.unwrap()@ != child@);
                assert(before@[former.unwrap()@].children.contains(child@));
                lemma_swap_removed(before@[former.unwrap()@].children, child@);
            }
        }
        self.put_parent(child, parent_option);
        match former {
            Some(former_parent) => {
                self.drop_child(former_parent, child);
            },
            None => {},
        }
        let ghost moved = self@;
        assert(moved == child_dropped(
            with_parent(before@, child@, node_id(parent_option)),
            node_id(former),
            child@,
        ));
        let parent = match parent_option {
            Some(parent) => parent,
            None => {
                return Ok(());
            },
        };
        proof {
            assert(!moved[parent@].children.contains(child@)) by {
                if before@[parent@].children.contains(child@) {
                    assert(before@[child@].parent == Some(parent@));
                }
            }
            lemma_pushed(moved[parent@].children, child@);
        }
        self.add_child(parent, child);
        let ghost attached = self@;
        match found {
            Some(entry) => {
                proof {
                    assert(is_cycle_entry(before@, child@, parent@, entry@));
                    assert(attached[child@].children.contains(entry@)) by {
                        if parent@ != child@ {
                            assert(before@[child@].children.contains(entry@));
                        }
                    }
                }
                self.put_parent(entry, former);
                self.drop_child(child, entry);
                match former {
                    Some(former_parent) => {
                        proof {
                            let dropped = self@;
                            assert(attached[child@].children.no_duplicates());
                            lemma_swap_removed(attached[child@].children, entry@);
                            assert(!dropped[former_parent@].children.contains(entry@)) by {
                                if parent@ != child@ {
                                    assert(before@[entry@].parent == Some(child@));
                                    if before@[former_parent@].children.contains(entry@) {
                                        assert(before@[entry@].parent == Some(former_parent@));
                                    }
                                }
                            }
                        }
                        self.add_child(former_parent, entry);
                    },
                    None => {},
                }
            },
            None => {},
        }
        proof {
            self.rank@ = reranked(before@, before.rank@, child@, node_id(parent_option));
        }
        Ok(())
    }

    /// Adds a node that carries `data` as the last child of `parent`, and
    /// returns its name. If `parent` is not in the tree, the node is added
    /// without a parent.
    pub fn insert_with_parent(&mut self, data: T, parent: Node<T>) -> (node: Node<T>)
        requires
            old(self).wf(),
            old(self).spec_has_room(),
        ensures
            final(self).wf(),
            !old(self)@.dom().contains(node@),
            old(self)@.dom().contains(parent@) ==> final(self)@ == child_added(
                old(self)@.insert(
                    node@,
                    NodeView { data, parent: Some(parent@), children: Seq::<u64>::empty() },
                ),
                Some(parent@),
                node@,
            ),
            !old(self)@.dom().contains(parent@) ==> final(self)@ == old(self)@.insert(
                node@,
                NodeView { data, parent: None, children: Seq::<u64>::empty() },
            ),
            final(self)@.dom().finite(),
            final(self)@.dom().len() == old(self)@.dom().len() + 1,
            final(self)@.dom().len() <= u32::MAX ==> final(self).spec_has_room(),
    {
        let ghost before = *self;
        let attach: bool = self.contains(parent);
        let node = self.insert(data);
        if attach {
            proof {
                assert(before@.dom().contains(parent@));
                assert(!before@[parent@].children.contains(node@));
                lemma_pushed(before@[parent@].children, node@);
            }
            self.add_child(parent, node);
            self.put_parent(node, Some(parent));
            proof {
                self.rank@ = before.rank@.insert(node@, before.rank@[parent@] + 1);
                let after = self@;
                assert(after =~= child_added(
                    before@.insert(
                        node@,
                        NodeView { data, parent: Some(parent@), children: Seq::<u64>::empty() },
                    ),
                    Some(parent@),
                    node@,
                ));
                assert forall|n: u64, c: u64| after.dom().contains(n) implies (
                #[trigger] after[n].children.contains(c) <==> (before@.dom().contains(n)
                    && before@[n].children.contains(c)) || (n == parent@ && c == node@)) by {}
                assert forall|n: u64| #[trigger] after.dom().contains(n) implies {
                    &&& after[n].children.no_duplicates()
                    &&& after[n].parent is Some ==> after.dom().contains(after[n].parent.unwrap())
                } by {
                    if n != node@ {
                        assert(before@.dom().contains(n));
                    }
                }
                assert forall|p: u64, c: u64|
                    after.dom().contains(p) && after.dom().contains(c) implies (
                #[trigger] after[p].children.contains(c) <==> after[c].parent == Some(p)) by {
                    if p != node@ && c != node@ {
                        assert(before@[p].children.contains(c) <==> before@[c].parent == Some(p));
                    }
                    if c != node@ && p == node@ {
                        assert(before@.dom().contains(c));
                    }
                }
                assert forall|n: u64| #[trigger]
                    after.dom().contains(n) && after[n].parent is Some implies self.rank@[after[n].parent.unwrap()]
                    < self.rank@[n] by {
                    if n != node@ {
                        assert(before@.dom().contains(n));
                    }
                }
            }
        }
        proof {
            self.lemma_room();
            before.nodes.lemma_order();
            assert(before@.dom() =~= before.nodes@.dom());
            assert(self@.dom() =~= self.nodes@.dom());
            self.nodes.lemma_order();
        }
        node
    }

    /// Takes `node` out of the tree and returns its data, or returns `None`
    /// and changes nothing if it is not in the tree.
    ///
    /// The children of `node` take its parent as theirs: they follow the
    /// other children of that parent in their order, or become roots if
    /// `node` had no parent.
    pub fn remove(&mut self, node: Node<T>) -> (data: Option<T>)
        requires
            old(self).wf(),
        ensures
            final(self).wf(),
            old(self).spec_has_room() ==> final(self).spec_has_room(),
            data == (if old(self)@.dom().contains(node@) {
                Some(old(self)@[node@].data)
            } else {
                None
            }),
            old(self)@.dom().contains(node@) ==> final(self)@ == removed(old(self)@, node@),
            !old(self)@.dom().contains(node@) ==> final(self)@ == old(self)@,
    {
        let ghost before = *self;
        let ghost m = before@;
        let taken = match self.nodes.remove(node.0.into_type()) {
            Some(taken) => taken,
            None => {
                assert(self@ =~= before@);
                return None;
            },
        };
        let ghost kids = m[node@].children;
        let ghost base = self@;
        let count: usize = set_len(&taken.children);
        proof {
            assert(m.dom().contains(node@));
            lemma_removed_invariant(m, before.rank@, node@);
            assert(taken@ == m[node@]);
            assert(base =~= m.remove(node@));
            assert(m[node@].parent != Some(node@));
        }
        match taken.parent {
            Some(parent) => {
                proof {
                    assert(m[parent@].children.contains(node@));
                    lemma_swap_removed(m[parent@].children, node@);
                }
                self.drop_child(parent, node);
                let ghost rest = self@[parent@].children;
                let mut i: usize = 0;
                while i < count
                    invariant
                        self.nodes.wf(),
                        before.wf(),
                        m == before@,
                        m.dom().contains(node@),
                        m[node@].parent == Some(parent@),
                        parent@ != node@,
                        kids == m[node@].children,
                        kids == set_items(taken.children),
                        count == kids.len(),
                        i <= count,
                        rest == swap_removed(
                            m[parent@].children,
                            m[parent@].children.index_of(node@),
                        ),
                        rest.no_duplicates(),
                        forall|c: u64| #[trigger] rest.contains(c) ==> m[parent@].children.contains(c),
                        self@.dom() == base.dom(),
                        base == m.remove(node@),
                        self.rank@ == before.rank@,
                        before.spec_has_room() ==> self.spec_has_room(),
                        forall|n: u64| #[trigger]
                            self@.dom().contains(n) && n != parent@ ==> self@[n] == m[n],
                        self@[parent@].data == m[parent@].data,
                        self@[parent@].parent == m[parent@].parent,
                        self@[parent@].children == rest + kids.subrange(0, i as int),
                    decreases count - i,
                {
                    let child = match set_get_index(&taken.children, i) {
                        Some(raw) => Node::<T>::from_raw(raw),
                        None => node,
                    };
                    proof {
                        let front = rest + kids.subrange(0, i as int);
                        assert(child@ == kids[i as int]);
                        assert(kids.contains(child@));
                        assert(m.dom().contains(child@));
                        assert(m[child@].parent == Some(node@));
                        assert(!front.contains(child@)) by {
                            if front.contains(child@) {
                                let j = choose|j: int| 0 <= j < front.len() && front[j] == child@;
                                if j < rest.len() {
                                    assert(rest[j] == child@);
                                    assert(rest.contains(child@));
                                    assert(m[parent@].children.contains(child@));
                                    assert(m[child@].parent == Some(parent@));
                                } else {
                                    assert(kids[j - rest.len()] == child@);
                                }
                            }
                        }
                        assert(front.push(child@) =~= rest + kids.subrange(0, i as int + 1));
                    }
                    self.add_child(parent, child);
                    i += 1;
                }
                assert(kids.subrange(0, count as int) =~= kids);
            },
            None => {},
        }
        let ghost linked = self@;
        let mut i: usize = 0;
        while i < count
            invariant
                self.nodes.wf(),
                before.wf(),
                m == before@,
                m.dom().contains(node@),
                m[node@].parent == node_id(taken.parent),
                kids == m[node@].children,
                kids == set_items(taken.children),
                count == kids.len(),
                i <= count,
                self@.dom() == linked.dom(),
                linked.dom() == m.remove(node@).dom(),
                self.rank@ == before.rank@,
                before.spec_has_room() ==> self.spec_has_room(),
                forall|n: u64| #[trigger]
                    self@.dom().contains(n) ==> {
                        &&& self@[n].data == linked[n].data
                        &&& self@[n].children == linked[n].children
                        &&& self@[n].parent == (if kids.subrange(0, i as int).contains(n) {
                            m[node@].parent
                        } else {
                            linked[n].parent
                        })
                    },
            decreases count - i,
        {
            let child = match set_get_index(&taken.children, i) {
                Some(raw) => Node::<T>::from_raw(raw),
                None => node,
            };
            proof {
                assert(child@ == kids[i as int]);
                assert(kids.contains(child@));
                assert(m.dom().contains(child@));
                assert(child@ != node@) by {
                    if child@ == node@ {
                        assert(m[node@].parent == Some(node@));
                    }
                }
            }
            let ghost previous = self@;
            self.put_parent(child, taken.parent);
            proof {
                let done = kids.subrange(0, i as int);
                let more = kids.subrange(0, i as int + 1);
                assert(more =~= done.push(child@));
                assert forall|n: u64| more.contains(n) <==> done.contains(n) || n == child@ by {
                    if more.contains(n) {
                        let j = choose|j: int| 0 <= j < more.len() && more[j] == n;
                        if j < done.len() {
                            assert(done[j] == n);
                        }
                    }
                    if done.contains(n) {
                        let j = choose|j: int| 0 <= j < done.len() && done[j] == n;
                        assert(more[j] == n);
                    }
                    if n == child@ {
                        assert(more[i as int] == n);
                    }
                }
            }
            i += 1;
        }
        proof {
            assert(kids.subrange(0, count as int) =~= kids);
            assert forall|n: u64| #[trigger] self@.dom().contains(n) implies self@[n] == removed(
                m,
                node@,
            )[n] by {
                assert(m.dom().contains(n));
                assert(kids.contains(n) <==> m[n].parent == Some(node@));
            }
            assert(self@ =~= removed(m, node@));
        }
        Some(taken.data)
    }

    /// The nodes of the subtree of `node`, each once and in level order:
    /// `node` first, then its children in their order, then the children of
    /// the first child, and so on. Empty if `node` is not in the tree.
    pub fn subtree(&self, node: Node<T>) -> (nodes: Vec<Node<T>>)
        requires
            self.wf(),
        ensures
            !self@.dom().contains(node@) ==> nodes@.len() == 0,
            self@.dom().contains(node@) ==> nodes@.len() > 0 && nodes@[0]@ == node@,
            ids_of(nodes@).no_duplicates(),
            forall|k: int|
                0 <= k < nodes@.len() ==> in_subtree(self@, (#[trigger] nodes@[k])@, node@),
            forall|x: u64| in_subtree(self@, x, node@) ==> ids_of(nodes@).contains(x),
            forall|k: int|
                1 <= k < nodes@.len() ==> exists|j: int|
                    0 <= j < k && self@[(#[trigger] nodes@[k])@].parent == Some(nodes@[j]@),
            in_level_order(self@, ids_of(nodes@)),
    {
        let mut nodes: Vec<Node<T>> = Vec::new();
        let ghost m = self@;
        if !self.contains(node) {
            assert forall|x: u64| !in_subtree(m, x, node@) by {
                if in_subtree(m, x, node@) {
                    let steps = choose|steps: nat| ancestor(m, x, steps) == Some(node@);
                    lemma_ancestor_step(m, x, steps);
                }
            }
            return nodes;
        }
        nodes.push(node);
        let mut i: usize = 0;
        proof {
            self.nodes.lemma_order();
            assert(m.dom() =~= self.nodes@.dom());
            assert(ancestor(m, node@, 0) == Some(node@));
            lemma_list_fits(m, ids_of(nodes@));
        }
        while i < nodes.len()
            invariant
                self.wf(),
                m == self@,
                m.dom().finite(),
                m.dom().contains(node@),
                nodes@.len() > 0,
                nodes@[0]@ == node@,
                i <= nodes@.len(),
                nodes@.len() <= m.dom().len(),
                ids_of(nodes@).no_duplicates(),
                forall|k: int|
                    0 <= k < nodes@.len() ==> m.dom().contains((#[trigger] nodes@[k])@)
                        && in_subtree(m, nodes@[k]@, node@),
                forall|k: int|
                    1 <= k < nodes@.len() ==> exists|j: int|
                        0 <= j < k && j < i && m[(#[trigger] nodes@[k])@].parent == Some(
                            nodes@[j]@,
                        ),
                forall|j: int, c: u64|
                    0 <= j < i && #[trigger] m[nodes@[j]@].children.contains(c) ==> ids_of(
                        nodes@,
                    ).contains(c),
                in_level_order(m, ids_of(nodes@)),
            decreases m.dom().len() - i,
        {
            let current = nodes[i];
            let ghost had = nodes@;
            let ghost kids = m[current@].children;
            let mut children = match self.children_of(current) {
                Some(children) => children,
                None => Vec::new(),
            };
            let ghost added = children@;
            proof {
                self.lemma_invariant();
                assert(ids_of(added) =~= kids);
                // no child is in the list yet
                assert forall|c: u64| !(ids_of(had).contains(c) && kids.contains(c)) by {
                    if ids_of(had).contains(c) && kids.contains(c) {
                        let k = choose|k: int| 0 <= k < had.len() && ids_of(had)[k] == c;
                        assert(m.dom().contains(c));
                        assert(m[c].parent == Some(current@));
                        if k == 0 {
                            lemma_subtree_rank(m, self.rank@, current@, node@);
                        } else {
                            let j = choose|j: int|
                                0 <= j < k && j < i && m[had[k]@].parent == Some(had[j]@);
                            assert(ids_of(had)[j] == ids_of(had)[i as int]);
                        }
                    }
                }
                lemma_joined(ids_of(had), kids);
            }
            nodes.append(&mut children);
            proof {
                assert(nodes@ == had + added);
                assert(ids_of(nodes@) =~= ids_of(had) + kids);
                assert forall|k: int| 0 <= k < nodes@.len() implies m.dom().contains(
                    (#[trigger] nodes@[k])@,
                ) && in_subtree(m, nodes@[k]@, node@) by {
                    if k >= had.len() {
                        let c = kids[k - had.len()];
                        assert(nodes@[k]@ == c);
                        assert(kids.contains(c));
                        assert(m.dom().contains(c));
                        assert(m[c].parent == Some(current@));
                        lemma_subtree_down(m, c, node@);
                    } else {
                        assert(nodes@[k] == had[k]);
                    }
                }
                assert forall|k: int| 1 <= k < nodes@.len() implies exists|j: int|
                    0 <= j < k && j < i + 1 && m[(#[trigger] nodes@[k])@].parent == Some(
                        nodes@[j]@,
                    ) by {
                    if k >= had.len() {
                        let c = kids[k - had.len()];
                        assert(nodes@[k]@ == c);
                        assert(kids.contains(c));
                        assert(m.dom().contains(c));
                        assert(m[c].parent == Some(nodes@[i as int]@));
                    } else {
                        assert(nodes@[k] == had[k]);
                        let j = choose|j: int|
                            0 <= j < k && j < i && m[had[k]@].parent == Some(had[j]@);
                        assert(nodes@[j] == had[j]);
                    }
                }
                assert forall|j: int, c: u64|
                    0 <= j < i + 1 && #[trigger] m[nodes@[j]@].children.contains(
                        c,
                    ) implies ids_of(nodes@).contains(c) by {
                    assert(nodes@[j] == had[j]);
                    if j < i {
                        assert(ids_of(had).contains(c));
                    }
                }
                lemma_list_fits(m, ids_of(nodes@));
                let list = ids_of(nodes@);
                let was = ids_of(had);
                assert forall|a: int| 1 <= a < list.len() implies (if a < had.len() {
                    parent_position(m, list, a) == parent_position(m, was, a)
                        && parent_position(m, list, a) < i && child_position(m, list, a)
                        == child_position(m, was, a)
                } else {
                    parent_position(m, list, a) == i && child_position(m, list, a) == a
                        - had.len()
                }) by {
                    if a < had.len() {
                        let j = choose|j: int|
                            0 <= j < a && j < i && m[had[a]@].parent == Some(had[j]@);
                        assert(list[a] == was[a]);
                        assert(list[j] == was[j]);
                        lemma_index_of(list, j);
                        lemma_index_of(was, j);
                    } else {
                        let c = kids[a - had.len()];
                        assert(list[a] == c);
                        assert(kids.contains(c));
                        assert(m.dom().contains(c));
                        assert(m[c].parent == Some(list[i as int]));
                        lemma_index_of(list, i as int);
                        lemma_index_of(kids, a - had.len());
                    }
                }
                assert forall|a: int, b: int| 1 <= a < b < list.len() implies {
                    ||| #[trigger] parent_position(m, list, a) < #[trigger] parent_position(
                        m,
                        list,
                        b,
                    )
                    ||| parent_position(m, list, a) == parent_position(m, list, b)
                        && child_position(m, list, a) < child_position(m, list, b)
                } by {
                    if b < had.len() {
                        assert(parent_position(m, was, a) < parent_position(m, was, b) || (
                        parent_position(m, was, a) == parent_position(m, was, b) && child_position(
                            m,
                            was,
                            a,
                        ) < child_position(m, was, b)));
                    }
                }
            }
            i += 1;
        }
        proof {
            self.lemma_invariant();
            let list = ids_of(nodes@);
            assert forall|x: u64| in_subtree(m, x, node@) implies list.contains(x) by {
                let steps = choose|steps: nat| ancestor(m, x, steps) == Some(node@);
                assert forall|j: int, c: u64|
                    0 <= j < list.len() && m.dom().contains(list[j])
                        && #[trigger] m[list[j]].children.contains(c) implies list.contains(c) by {
                    assert(m[nodes@[j]@].children.contains(c));
                }
                lemma_closed_list_holds_subtree(m, list, node@, x, steps);
            }
        }
        nodes
    }
}

} // verus!
