use vstd::prelude::*;

use crate::arena::shift_ids;
use crate::arena::shifted;
use crate::ast::annotations::Annotations;
use crate::ast::errors::Error;
use crate::grammar::Symbol;

verus! {

/// One node of a syntax tree. `children` and `token` are positions in the
/// tree's arena and in the token stream.
#[derive(Debug)]
pub struct AstNode {
    pub symbol: Symbol,
    pub children: Vec<usize>,
    pub token: Option<usize>,
    pub annotations: Annotations,
}

/// The mathematical content of an [`AstNode`].
pub struct NodeView {
    pub symbol: Symbol,
    pub children: Seq<usize>,
    pub token: Option<usize>,
    pub annotations: Annotations,
}

impl View for AstNode {
    type V = NodeView;

    open spec fn view(&self) -> NodeView {
        NodeView {
            symbol: self.symbol,
            children: self.children@,
            token: self.token,
            annotations: self.annotations,
        }
    }
}

/// A syntax tree: an arena of nodes, node 0 being the root.
#[derive(Debug)]
pub struct Ast {
    pub nodes: Vec<AstNode>,
}

impl View for Ast {
    type V = Seq<NodeView>;

    open spec fn view(&self) -> Seq<NodeView> {
        Seq::new(self.nodes@.len(), |i: int| self.nodes@[i]@)
    }
}

/// `node` with its child positions moved up by `offset`.
pub open spec fn shift_node(node: NodeView, offset: int) -> NodeView {
    NodeView { children: shift_ids(node.children, offset), ..node }
}

/// Every node of `nodes` with its child positions moved up by `offset`:
/// what an arena becomes when `offset` nodes are put in front of it.
pub open spec fn shift_nodes(nodes: Seq<NodeView>, offset: int) -> Seq<NodeView> {
    Seq::new(nodes.len(), |i: int| shift_node(nodes[i], offset))
}

/// `nodes` with `more` appended to the root's children.
pub open spec fn root_extended(nodes: Seq<NodeView>, more: Seq<usize>) -> Seq<NodeView> {
    nodes.update(0, NodeView { children: nodes[0].children + more, ..nodes[0] })
}

/// Every child position in `nodes` names a node of `nodes`.
pub open spec fn links_in_bounds(nodes: Seq<NodeView>) -> bool {
    forall|i: int, j: int|
        0 <= i < nodes.len() && 0 <= j < nodes[i].children.len() ==> (
        #[trigger] nodes[i].children[j]) < nodes.len()
}

/// Every child position names a node stored after its parent: the arena is
/// laid out root first, and no chain of children can come back to a node.
pub open spec fn forward_links(nodes: Seq<NodeView>) -> bool {
    forall|i: int, j: int|
        0 <= i < nodes.len() && 0 <= j < nodes[i].children.len() ==> i < (
        #[trigger] nodes[i].children[j]) < nodes.len()
}

/// Every child position is after the position of its parent, whether or
/// not it names a node of the arena.
pub open spec fn links_ascend(nodes: Seq<NodeView>) -> bool {
    forall|i: int, j: int|
        0 <= i < nodes.len() && 0 <= j < nodes[i].children.len() ==> i < (
        #[trigger] nodes[i].children[j])
}

/// No node is listed as a child twice, be it by two parents or by one.
pub open spec fn single_parent(nodes: Seq<NodeView>) -> bool {
    forall|i: int, j: int, k: int, l: int|
        0 <= i < nodes.len() && 0 <= j < nodes[i].children.len() && 0 <= k < nodes.len() && 0 <= l
            < nodes[k].children.len() && (#[trigger] nodes[i].children[j])
            == #[trigger] nodes[k].children[l] ==> i == k && j == l
}

/// `c` is the `j`-th child of `p`.
pub open spec fn is_child_at(nodes: Seq<NodeView>, p: int, j: int, c: int) -> bool {
    0 <= p < nodes.len() && 0 <= j < nodes[p].children.len() && nodes[p].children[j] == c
}

/// `c` is some node's child.
pub open spec fn has_parent(nodes: Seq<NodeView>, c: int) -> bool {
    exists|p: int, j: int| #[trigger] is_child_at(nodes, p, j, c)
}

/// Every node but the root is some node's child.
pub open spec fn all_attached(nodes: Seq<NodeView>) -> bool {
    forall|c: int| 0 < c < nodes.len() ==> #[trigger] has_parent(nodes, c)
}

/// `d` lies below `a`: it is a child of `a`, or lies below one.
pub open spec fn is_descendant(nodes: Seq<NodeView>, a: int, d: int) -> bool
    decreases nodes.len() - a,
{
    0 <= a < nodes.len() && exists|j: int|
        0 <= j < nodes[a].children.len() && a < (#[trigger] nodes[a].children[j]) < nodes.len() && (
        nodes[a].children[j] == d || is_descendant(nodes, nodes[a].children[j] as int, d))
}

/// `nodes` is a tree rooted at node 0: every other node is the child of
/// exactly one node, listed once, and stored after it.
pub open spec fn is_tree(nodes: Seq<NodeView>) -> bool {
    &&& nodes.len() > 0
    &&& forward_links(nodes)
    &&& single_parent(nodes)
    &&& all_attached(nodes)
}

/// The arena after `child` was hung under the root of `parent` as one more
/// subtree: the nodes of `child` follow those of `parent`, renumbered, and
/// the root of `child` is the last child of the root.
pub open spec fn hang_child_nodes(parent: Seq<NodeView>, child: Seq<NodeView>) -> Seq<NodeView> {
    root_extended(parent, seq![parent.len() as usize]) + shift_nodes(child, parent.len() as int)
}

/// The arena after the subtrees under the root of `child` were hung under
/// the root of `parent`: the root of `child` is dropped, its other nodes
/// follow those of `parent`, renumbered, and its children are appended to
/// those of the root.
pub open spec fn hang_from_placeholder_nodes(
    parent: Seq<NodeView>,
    child: Seq<NodeView>,
) -> Seq<NodeView> {
    root_extended(parent, shift_ids(child[0].children, parent.len() - 1)) + shift_nodes(
        child.subrange(1, child.len() as int),
        parent.len() - 1,
    )
}

/// The arena after `node` was added as the last child of the root.
pub open spec fn add_child_nodes(parent: Seq<NodeView>, node: NodeView) -> Seq<NodeView> {
    root_extended(parent, seq![parent.len() as usize]).push(node)
}

impl Ast {
    /// The arena holds a tree rooted at node 0.
    pub open spec fn well_formed(&self) -> bool {
        is_tree(self@)
    }

    /// Returns a reference to the AST's root node, or an error if none exists.
    pub fn get_root(&self) -> (r: Result<&AstNode, Error>)
        ensures
            self.nodes@.len() == 0 ==> r == Err::<&AstNode, Error>(Error::ParserTreeHasNoRootNode),
            self.nodes@.len() > 0 ==> r == Ok::<&AstNode, Error>(&self.nodes@[0]),
    {
        if self.nodes.len() > 0 {
            Ok(&self.nodes[0])
        } else {
            Err(Error::ParserTreeHasNoRootNode)
        }
    }

    /// Returns a mutable reference to the AST's root node, or an error if none exists.
    pub fn get_root_mut(&mut self) -> (r: Result<&mut AstNode, Error>)
        ensures
            old(self).nodes@.len() == 0 ==> r is Err && r->Err_0 == Error::ParserTreeHasNoRootNode
                && *final(self) == *old(self),
            old(self).nodes@.len() > 0 ==> r is Ok && *r->Ok_0 == old(self).nodes@[0]
                && final(self).nodes@ == old(self).nodes@.update(0, *final(r->Ok_0)),
    {
        if self.nodes.len() > 0 {
            Ok(&mut self.nodes[0])
        } else {
            Err(Error::ParserTreeHasNoRootNode)
        }
    }
    /// A walk over the tree in postorder.
    pub fn postorder(&self) -> (iter: crate::ast::iterators::PostOrderAstIterator)
        requires
            self@.len() > 0,
            forward_links(self@),
        ensures
            iter@ == crate::ast::iterators::tree_postorder(self@),
    {
        crate::ast::iterators::PostOrderAstIterator::new(self)
    }

    /// Returns a reference to one of the ASTs nodes, or an error if the index does not exist.
    pub fn get_node(&self, i: usize) -> (r: Result<&AstNode, Error>)
        ensures
            i >= self.nodes@.len() ==> r == Err::<&AstNode, Error>(Error::ParserTreeNodeOutOfBounds),
            i < self.nodes@.len() ==> r == Ok::<&AstNode, Error>(&self.nodes@[i as int]),
    {
        if i < self.nodes.len() {
            Ok(&self.nodes[i])
        } else {
            Err(Error::ParserTreeNodeOutOfBounds)
        }
    }

    /// Returns a mutable reference to one of the ASTs nodes, or an error if the index does not exist.
    pub fn get_node_mut(&mut self, i: usize) -> (r: Result<&mut AstNode, Error>)
        ensures
            i >= old(self).nodes@.len() ==> r is Err && r->Err_0 == Error::ParserTreeNodeOutOfBounds
                && *final(self) == *old(self),
            i < old(self).nodes@.len() ==> r is Ok && *r->Ok_0 == old(self).nodes@[i as int]
                && final(self).nodes@ == old(self).nodes@.update(i as int, *final(r->Ok_0)),
    {
        if i < self.nodes.len() {
            Ok(&mut self.nodes[i])
        } else {
            Err(Error::ParserTreeNodeOutOfBounds)
        }
    }

    /// Add all the nodes in a syntax tree to this tree.
    /// Make the root of the tree being added a child of the current tree's root.
    pub fn hang_child(self, child_tree: Ast) -> (r: Result<Self, Error>)
        requires
            links_in_bounds(child_tree@),
        ensures
            match r {
                Ok(tree) => {
                    &&& self@.len() > 0
                    &&& child_tree@.len() > 0
                    &&& child_tree@[0].symbol != Symbol::_Placeholder
                    &&& tree@ == hang_child_nodes(self@, child_tree@)
                },
                Err(e) => if child_tree@.len() > 0 && child_tree@[0].symbol
                    == Symbol::_Placeholder {
                    e == Error::ParserReceivedPlaceholder
                } else {
                    e == Error::ParserTreeHasNoRootNode && (child_tree@.len() == 0 || self@.len()
                        == 0)
                },
            },
            is_tree(self@) && is_tree(child_tree@) ==> (r matches Ok(tree) ==> is_tree(tree@)),
    {
        if child_tree.nodes.len() == 0 {
            return Err(Error::ParserTreeHasNoRootNode);
        }
        if matches!(child_tree.nodes[0].symbol, Symbol::_Placeholder) {
            return Err(Error::ParserReceivedPlaceholder);
        }
        if self.nodes.len() == 0 {
            return Err(Error::ParserTreeHasNoRootNode);
        }
        let ghost parent = self@;
        let ghost child = child_tree@;
        let mut tree = self;
        let mut child_nodes = child_tree.nodes;
        let current_size = tree.nodes.len();
        tree.nodes.append(&mut child_nodes);
        let ghost joined = tree@;
        assert(tree.nodes.len() == parent.len() + child.len());
        assert forall|i: int| 0 <= i < parent.len() implies #[trigger] joined[i] == parent[i] by {}
        assert forall|i: int| 0 <= i < child.len() implies #[trigger] joined[parent.len() + i]
            == child[i] by {}
        assert forall|i: int, j: int|
            current_size <= i < joined.len() && 0 <= j < joined[i].children.len() implies (
            #[trigger] joined[i].children[j]) + current_size <= usize::MAX by {
            assert(joined[i] == child[i - parent.len()]);
            assert(child[i - parent.len()].children[j] < child.len());
        }
        tree.offset_ids(current_size, current_size);
        let ghost moved = tree@;
        assert(moved[0] == joined[0]);
        tree.nodes[0].children.push(current_size);
        assert(tree@[0].children =~= parent[0].children + seq![parent.len() as usize]);
        assert forall|i: int| 0 <= i < tree@.len() implies #[trigger] tree@[i]
            == hang_child_nodes(parent, child)[i] by {
            if i >= parent.len() {
                assert(tree@[i] == moved[i]);
                assert(joined[i] == child[i - parent.len()]);
            } else if i > 0 {
                assert(tree@[i] == moved[i]);
                assert(moved[i] == joined[i]);
                assert(joined[i] == parent[i]);
            }
        }
        assert(tree@ =~= hang_child_nodes(parent, child));
        proof {
            assert(tree.nodes.len() == tree@.len());
            if is_tree(parent) && is_tree(child) {
                crate::ast::splice::lemma_hang_child_tree(parent, child);
            }
        }
        Ok(tree)
    }

    /// Add all the nodes in a syntax tree to this tree except the placeholder.
    /// Make the children of the tree being added children of the current tree's root.
    pub fn hang_from_placeholder(self, child_tree: Ast) -> (r: Result<Self, Error>)
        requires
            links_in_bounds(child_tree@),
        ensures
            match r {
                Ok(tree) => {
                    &&& self@.len() > 0
                    &&& child_tree@.len() > 0
                    &&& child_tree@[0].symbol == Symbol::_Placeholder
                    &&& tree@ == hang_from_placeholder_nodes(self@, child_tree@)
                },
                Err(e) => if child_tree@.len() > 0 && child_tree@[0].symbol
                    != Symbol::_Placeholder {
                    e == Error::ParserExpectedPlaceholder
                } else {
                    e == Error::ParserTreeHasNoRootNode && (child_tree@.len() == 0 || self@.len()
                        == 0)
                },
            },
            is_tree(self@) && is_tree(child_tree@) ==> (r matches Ok(tree) ==> is_tree(tree@)),
    {
        if child_tree.nodes.len() == 0 {
            return Err(Error::ParserTreeHasNoRootNode);
        }
        if !matches!(child_tree.nodes[0].symbol, Symbol::_Placeholder) {
            return Err(Error::ParserExpectedPlaceholder);
        }
        if self.nodes.len() == 0 {
            return Err(Error::ParserTreeHasNoRootNode);
        }
        let ghost parent = self@;
        let ghost child = child_tree@;
        let mut tree = self;
        let mut child_nodes = child_tree.nodes;
        let current_size = tree.nodes.len();
        let offset = current_size - 1;
        let child_root = child_nodes.remove(0);
        assert(child_root@ == child[0]);
        let ghost rest = child.subrange(1, child.len() as int);
        assert forall|i: int| 0 <= i < rest.len() implies #[trigger] child_nodes@[i]@
            == rest[i] by {
            assert(child_nodes@[i] == child_tree.nodes@[i + 1]);
        }
        tree.nodes.append(&mut child_nodes);
        let ghost joined = tree@;
        assert(tree.nodes.len() == parent.len() + rest.len());
        assert forall|i: int| 0 <= i < parent.len() implies #[trigger] joined[i] == parent[i] by {}
        assert forall|i: int| 0 <= i < rest.len() implies #[trigger] joined[parent.len() + i]
            == rest[i] by {}
        assert forall|i: int, j: int|
            current_size <= i < joined.len() && 0 <= j < joined[i].children.len() implies (
            #[trigger] joined[i].children[j]) + offset <= usize::MAX by {
            assert(joined[i] == rest[i - parent.len()]);
            assert(rest[i - parent.len()] == child[i - parent.len() + 1]);
            assert(child[i - parent.len() + 1].children[j] < child.len());
        }
        tree.offset_ids(current_size, offset);
        let ghost moved = tree@;
        assert(moved[0] == joined[0]);
        assert forall|j: int| 0 <= j < child_root.children@.len() implies child_root.children@[j]
            + offset <= usize::MAX by {
            assert(child[0].children[j] < child.len());
        }
        let mut grafted = shifted(&child_root.children, offset);
        tree.nodes[0].children.append(&mut grafted);
        assert(tree@[0].children =~= parent[0].children + shift_ids(
            child[0].children,
            parent.len() - 1,
        ));
        assert forall|i: int| 0 <= i < tree@.len() implies #[trigger] tree@[i]
            == hang_from_placeholder_nodes(parent, child)[i] by {
            if i >= parent.len() {
                assert(tree@[i] == moved[i]);
                assert(joined[i] == rest[i - parent.len()]);
            } else if i > 0 {
                assert(tree@[i] == moved[i]);
                assert(moved[i] == joined[i]);
                assert(joined[i] == parent[i]);
            }
        }
        assert(tree@ =~= hang_from_placeholder_nodes(parent, child));
        proof {
            assert(tree.nodes.len() == tree@.len());
            if is_tree(parent) && is_tree(child) {
                crate::ast::splice::lemma_hang_from_placeholder_tree(parent, child);
            }
        }
        Ok(tree)
    }

    /// Add a new node to the syntax tree as a child of the root.
    pub fn add_child(self, child_node: AstNode) -> (r: Result<Self, Error>)
        ensures
            match r {
                Ok(tree) => self@.len() > 0 && tree@ == add_child_nodes(self@, child_node@),
                Err(e) => self@.len() == 0 && e == Error::ParserTreeHasNoRootNode,
            },
            is_tree(self@) && child_node@.children.len() == 0 ==> (r matches Ok(tree) ==> is_tree(
                tree@,
            )),
    {
        if self.nodes.len() == 0 {
            return Err(Error::ParserTreeHasNoRootNode);
        }
        let ghost parent = self@;
        let mut tree = self;
        let current_size = tree.nodes.len();
        tree.nodes[0].children.push(current_size);
        let ghost grown = tree@;
        assert(grown[0].children =~= parent[0].children + seq![parent.len() as usize]);
        assert forall|i: int| 0 < i < parent.len() implies #[trigger] grown[i] == parent[i] by {}
        tree.nodes.push(child_node);
        assert forall|i: int| 0 <= i < tree@.len() implies #[trigger] tree@[i] == add_child_nodes(
            parent,
            child_node@,
        )[i] by {
            if i < parent.len() {
                assert(tree@[i] == grown[i]);
            }
        }
        assert(tree@ =~= add_child_nodes(parent, child_node@));
        proof {
            assert(tree.nodes.len() == tree@.len());
            if is_tree(parent) && child_node@.children.len() == 0 {
                crate::ast::splice::lemma_add_child_tree(parent, child_node@);
            }
        }
        Ok(tree)
    }

    /// Add `offset` to the child positions of every node from `first` on.
    fn offset_ids(&mut self, first: usize, offset: usize)
        requires
            first <= old(self)@.len(),
            forall|i: int, j: int|
                first <= i < old(self)@.len() && 0 <= j < old(self)@[i].children.len() ==> (
                #[trigger] old(self)@[i].children[j]) + offset <= usize::MAX,
        ensures
            final(self)@.len() == old(self)@.len(),
            forall|i: int| 0 <= i < first ==> (#[trigger] final(self)@[i]) == old(self)@[i],
            forall|i: int|
                first <= i < old(self)@.len() ==> (#[trigger] final(self)@[i]) == shift_node(
                    old(self)@[i],
                    offset as int,
                ),
    {
        let mut i: usize = first;
        while i < self.nodes.len()
            invariant
                first <= i <= self@.len(),
                self@.len() == old(self)@.len(),
                self.nodes@.len() == self@.len(),
                forall|k: int| 0 <= k < first ==> (#[trigger] self@[k]) == old(self)@[k],
                forall|k: int| i <= k < self@.len() ==> (#[trigger] self@[k]) == old(self)@[k],
                forall|k: int|
                    first <= k < i ==> (#[trigger] self@[k]) == shift_node(
                        old(self)@[k],
                        offset as int,
                    ),
                forall|k: int, j: int|
                    first <= k < old(self)@.len() && 0 <= j < old(self)@[k].children.len() ==> (
                    #[trigger] old(self)@[k].children[j]) + offset <= usize::MAX,
            decreases self@.len() - i,
        {
            let ghost before = self@;
            assert(before[i as int] == old(self)@[i as int]);
            assert forall|j: int| 0 <= j < self.nodes@[i as int].children@.len() implies
                self.nodes@[i as int].children@[j] + offset <= usize::MAX by {
                assert(old(self)@[i as int].children[j] + offset <= usize::MAX);
            }
            let moved = shifted(&self.nodes[i].children, offset);
            self.nodes[i].children = moved;
            assert(self@[i as int] == shift_node(before[i as int], offset as int));
            assert forall|k: int| 0 <= k < self@.len() && k != i implies (#[trigger] self@[k])
                == before[k] by {}
            i += 1;
        }
    }
}

} // verus!
