use vstd::prelude::*;

use crate::ast::annotations::Annotations;
use crate::ast::ast::forward_links;
use crate::ast::ast::hang_child_nodes;
use crate::ast::ast::hang_from_placeholder_nodes;
use crate::ast::ast::has_parent;
use crate::ast::ast::is_child_at;
use crate::ast::ast::is_tree;
use crate::ast::ast::single_parent;
use crate::ast::ast::NodeView;
use crate::grammar::Symbol;

verus! {

/// A node without children, token or annotation, tagged as a placeholder.
pub open spec fn blank_node() -> NodeView {
    NodeView {
        symbol: Symbol::_Placeholder,
        children: Seq::empty(),
        token: None,
        annotations: Annotations { mem_id: None, discard: true, type_id: None },
    }
}

/// The tree of one placeholder: what a match that keeps nothing yields.
pub open spec fn blank_tree() -> Seq<NodeView> {
    seq![blank_node()]
}

/// The leaf that stands for the token at `head`.
pub open spec fn leaf_node(head: usize) -> NodeView {
    NodeView {
        symbol: Symbol::Lexeme,
        children: Seq::empty(),
        token: Some(head),
        annotations: Annotations { mem_id: None, discard: true, type_id: None },
    }
}

/// `nodes` with the symbol of the root set to `symbol`.
pub open spec fn claimed(nodes: Seq<NodeView>, symbol: Symbol) -> Seq<NodeView> {
    nodes.update(0, NodeView { symbol, ..nodes[0] })
}

/// A tree under a placeholder, with no placeholder below the root: what a
/// match within a rule yields.
pub open spec fn is_forest(nodes: Seq<NodeView>) -> bool {
    &&& is_tree(nodes)
    &&& nodes[0].symbol == Symbol::_Placeholder
    &&& nodes[0].token is None
    &&& forall|i: int| 0 < i < nodes.len() ==> (#[trigger] nodes[i]).symbol != Symbol::_Placeholder
}

/// The node is of the symbol `Lexeme` exactly if it carries a token. Then
/// it has no children, and its token is one of the first `count`. If
/// `strict` is not set, a node of the symbol `Lexeme` may be without token.
pub open spec fn leaf_or_inner(node: NodeView, count: int, strict: bool) -> bool {
    &&& node.token matches Some(k) ==> k < count && node.symbol == Symbol::Lexeme
        && node.children.len() == 0
    &&& strict && node.symbol == Symbol::Lexeme ==> node.token is Some
}

/// Each node of the tree is a leaf with a token or an inner node without.
pub open spec fn leaves_sound(nodes: Seq<NodeView>, count: int, strict: bool) -> bool {
    forall|i: int| 0 <= i < nodes.len() ==> leaf_or_inner(#[trigger] nodes[i], count, strict)
}

/// No node of the tree is a placeholder.
pub open spec fn no_placeholder(nodes: Seq<NodeView>) -> bool {
    forall|i: int| 0 <= i < nodes.len() ==> (#[trigger] nodes[i]).symbol != Symbol::_Placeholder
}

/// One node without children is a tree.
pub proof fn lemma_single_node(node: NodeView)
    requires
        node.children.len() == 0,
    ensures
        is_tree(seq![node]),
{
    let nodes = seq![node];
    assert(forward_links(nodes));
    assert(single_parent(nodes));
}

/// Setting the symbol of the root keeps the tree a tree.
pub proof fn lemma_claimed_tree(nodes: Seq<NodeView>, symbol: Symbol)
    requires
        is_tree(nodes),
    ensures
        is_tree(claimed(nodes, symbol)),
        forall|i: int| 0 < i < nodes.len() ==> (#[trigger] claimed(nodes, symbol)[i]) == nodes[i],
        claimed(nodes, symbol).len() == nodes.len(),
        claimed(nodes, symbol)[0].symbol == symbol,
        claimed(nodes, symbol)[0].children == nodes[0].children,
        claimed(nodes, symbol)[0].token == nodes[0].token,
{
    let after = claimed(nodes, symbol);
    assert forall|i: int| 0 <= i < nodes.len() implies (#[trigger] after[i]).children
        == nodes[i].children by {}
    assert forall|c: int| 0 < c < after.len() implies #[trigger] has_parent(after, c) by {
        assert(has_parent(nodes, c));
        let (p, j) = choose|p: int, j: int| #[trigger] is_child_at(nodes, p, j, c);
        assert(after[p].children == nodes[p].children);
        assert(is_child_at(after, p, j, c));
    }
    assert forall|i: int, j: int, k: int, l: int|
        0 <= i < after.len() && 0 <= j < after[i].children.len() && 0 <= k < after.len() && 0 <= l
            < after[k].children.len() && (#[trigger] after[i].children[j])
            == #[trigger] after[k].children[l] implies i == k && j == l by {
        assert(after[i].children == nodes[i].children);
        assert(after[k].children == nodes[k].children);
        assert(nodes[i].children[j] == nodes[k].children[l]);
    }
    assert forall|i: int, j: int| 0 <= i < after.len() && 0 <= j < after[i].children.len() implies i
        < (#[trigger] after[i].children[j]) < after.len() by {
        assert(after[i].children == nodes[i].children);
        assert(i < nodes[i].children[j] < nodes.len());
    }
}

/// A tree hung under a lone placeholder makes a tree.
pub proof fn lemma_hang_child_under_blank(child: Seq<NodeView>)
    requires
        is_tree(child),
        child.len() + 1 <= usize::MAX,
    ensures
        is_tree(hang_child_nodes(blank_tree(), child)),
        hang_child_nodes(blank_tree(), child).len() == child.len() + 1,
        hang_child_nodes(blank_tree(), child)[0].symbol == Symbol::_Placeholder,
        hang_child_nodes(blank_tree(), child)[0].token is None,
        forall|i: int|
            0 < i <= child.len() ==> (#[trigger] hang_child_nodes(blank_tree(), child)[i]).symbol
                == child[i - 1].symbol && hang_child_nodes(blank_tree(), child)[i].token == child[i
                - 1].token && hang_child_nodes(blank_tree(), child)[i].children.len() == child[i
                - 1].children.len(),
{
    let after = hang_child_nodes(blank_tree(), child);
    assert(after[0].children =~= seq![1usize]);
    assert forall|i: int| 0 < i < after.len() implies (#[trigger] after[i]).children.len() == child[i
        - 1].children.len() && after[i].symbol == child[i - 1].symbol && forall|j: int|
        0 <= j < child[i - 1].children.len() ==> (#[trigger] after[i].children[j]) == child[i
            - 1].children[j] + 1 by {
        assert forall|j: int| 0 <= j < child[i - 1].children.len() implies (
        #[trigger] after[i].children[j]) == child[i - 1].children[j] + 1 by {
            assert(child[i - 1].children[j] < child.len());
        }
    }
    assert forall|i: int, j: int| 0 <= i < after.len() && 0 <= j < after[i].children.len() implies i
        < (#[trigger] after[i].children[j]) < after.len() by {
        if i > 0 {
            assert(i - 1 < child[i - 1].children[j] < child.len());
        }
    }
    assert forall|i: int, j: int, k: int, l: int|
        0 <= i < after.len() && 0 <= j < after[i].children.len() && 0 <= k < after.len() && 0 <= l
            < after[k].children.len() && (#[trigger] after[i].children[j])
            == #[trigger] after[k].children[l] implies i == k && j == l by {
        if i > 0 {
            assert(i - 1 < child[i - 1].children[j]);
        }
        if k > 0 {
            assert(k - 1 < child[k - 1].children[l]);
        }
        if i > 0 && k > 0 {
            assert(child[i - 1].children[j] == child[k - 1].children[l]);
        }
    }
    assert forall|c: int| 0 < c < after.len() implies #[trigger] has_parent(after, c) by {
        if c == 1 {
            assert(is_child_at(after, 0, 0, c));
        } else {
            assert(has_parent(child, c - 1));
            let (p, j) = choose|p: int, j: int| #[trigger] is_child_at(child, p, j, c - 1);
            assert(after[p + 1].children[j] == child[p].children[j] + 1);
            assert(is_child_at(after, p + 1, j, c));
        }
    }
}

/// The subtrees of one tree hung under the root of another make a tree.
pub proof fn lemma_hang_from_placeholder_tree(parent: Seq<NodeView>, child: Seq<NodeView>)
    requires
        is_tree(parent),
        is_tree(child),
        parent.len() + child.len() - 1 <= usize::MAX,
    ensures
        is_tree(hang_from_placeholder_nodes(parent, child)),
        hang_from_placeholder_nodes(parent, child).len() == parent.len() + child.len() - 1,
        hang_from_placeholder_nodes(parent, child)[0].symbol == parent[0].symbol,
        hang_from_placeholder_nodes(parent, child)[0].token == parent[0].token,
        forall|i: int|
            0 < i < parent.len() ==> (#[trigger] hang_from_placeholder_nodes(parent, child)[i])
                == parent[i],
        forall|i: int|
            parent.len() <= i < parent.len() + child.len() - 1 ==> (
            #[trigger] hang_from_placeholder_nodes(parent, child)[i]).symbol == child[i
                - parent.len() + 1].symbol && hang_from_placeholder_nodes(parent, child)[i].token
                == child[i - parent.len() + 1].token && hang_from_placeholder_nodes(
                parent,
                child,
            )[i].children.len() == child[i - parent.len() + 1].children.len(),
{
    let after = hang_from_placeholder_nodes(parent, child);
    let off = parent.len() - 1;
    let own = parent[0].children.len() as int;
    let rest = child.subrange(1, child.len() as int);
    assert(after.len() == parent.len() + child.len() - 1);
    // what each node of the result lists
    assert(after[0].children.len() == own + child[0].children.len());
    assert forall|j: int| 0 <= j < own implies (#[trigger] after[0].children[j])
        == parent[0].children[j] by {}
    assert forall|j: int| 0 <= j < child[0].children.len() implies (#[trigger] after[0].children[own
        + j]) == child[0].children[j] + off by {
        assert(child[0].children[j] < child.len());
    }
    assert forall|i: int| 0 < i < parent.len() implies (#[trigger] after[i]) == parent[i] by {}
    assert forall|i: int| parent.len() <= i < after.len() implies (#[trigger] after[i]).symbol
        == child[i - off].symbol && after[i].token == child[i - off].token
        && after[i].children.len() == child[i - off].children.len() && forall|j: int|
        0 <= j < child[i - off].children.len() ==> (#[trigger] after[i].children[j]) == child[i
            - off].children[j] + off by {
        assert(rest[i - parent.len()] == child[i - off]);
        assert forall|j: int| 0 <= j < child[i - off].children.len() implies (
        #[trigger] after[i].children[j]) == child[i - off].children[j] + off by {
            assert(child[i - off].children[j] < child.len());
        }
    }
    assert forall|i: int, j: int| 0 <= i < after.len() && 0 <= j < after[i].children.len() implies i
        < (#[trigger] after[i].children[j]) < after.len() by {
        if i == 0 {
            if j < own {
                assert(0 < parent[0].children[j] < parent.len());
            } else {
                assert(after[0].children[own + (j - own)] == child[0].children[j - own] + off);
                assert(0 < child[0].children[j - own] < child.len());
            }
        } else if i < parent.len() {
            assert(i < parent[i].children[j] < parent.len());
        } else {
            assert(i - off < child[i - off].children[j] < child.len());
        }
    }
    assert forall|i: int, j: int, k: int, l: int|
        0 <= i < after.len() && 0 <= j < after[i].children.len() && 0 <= k < after.len() && 0 <= l
            < after[k].children.len() && (#[trigger] after[i].children[j])
            == #[trigger] after[k].children[l] implies i == k && j == l by {
        let v = after[i].children[j];
        // where the first listing comes from
        let first_old = i < parent.len() && (i > 0 || j < own);
        let second_old = k < parent.len() && (k > 0 || l < own);
        if first_old {
            assert(after[i].children[j] == parent[i].children[j]);
            assert(parent[i].children[j] < parent.len());
        } else if i == 0 {
            assert(after[0].children[own + (j - own)] == child[0].children[j - own] + off);
            assert(0 < child[0].children[j - own]);
        } else {
            assert(after[i].children[j] == child[i - off].children[j] + off);
            assert(i - off < child[i - off].children[j]);
        }
        if second_old {
            assert(after[k].children[l] == parent[k].children[l]);
            assert(parent[k].children[l] < parent.len());
        } else if k == 0 {
            assert(after[0].children[own + (l - own)] == child[0].children[l - own] + off);
            assert(0 < child[0].children[l - own]);
        } else {
            assert(after[k].children[l] == child[k - off].children[l] + off);
            assert(k - off < child[k - off].children[l]);
        }
        if first_old && second_old {
            assert(parent[i].children[j] == parent[k].children[l]);
        } else if !first_old && !second_old {
            let ci = if i == 0 {
                0
            } else {
                i - off
            };
            let cj = if i == 0 {
                j - own
            } else {
                j
            };
            let ck = if k == 0 {
                0
            } else {
                k - off
            };
            let cl = if k == 0 {
                l - own
            } else {
                l
            };
            assert(child[ci].children[cj] == child[ck].children[cl]);
        }
    }
    assert forall|c: int| 0 < c < after.len() implies #[trigger] has_parent(after, c) by {
        if c < parent.len() {
            assert(has_parent(parent, c));
            let (p, j) = choose|p: int, j: int| #[trigger] is_child_at(parent, p, j, c);
            if p == 0 {
                assert(after[0].children[j] == parent[0].children[j]);
            }
            assert(is_child_at(after, p, j, c));
        } else {
            assert(has_parent(child, c - off));
            let (p, j) = choose|p: int, j: int| #[trigger] is_child_at(child, p, j, c - off);
            if p == 0 {
                assert(after[0].children[own + j] == child[0].children[j] + off);
                assert(is_child_at(after, 0, own + j, c));
            } else {
                assert(p < child[p].children[j]);
                assert(after[p + off].children[j] == child[p + off - off].children[j] + off);
                assert(is_child_at(after, p + off, j, c));
            }
        }
    }
}

/// A tree hung under the root of another makes a tree.
pub proof fn lemma_hang_child_tree(parent: Seq<NodeView>, child: Seq<NodeView>)
    requires
        is_tree(parent),
        is_tree(child),
        parent.len() + child.len() <= usize::MAX,
    ensures
        is_tree(hang_child_nodes(parent, child)),
{
    let after = hang_child_nodes(parent, child);
    let off = parent.len() as int;
    let own = parent[0].children.len() as int;
    assert(after.len() == parent.len() + child.len());
    assert(after[0].children.len() == own + 1);
    assert(after[0].children[own] == off);
    assert forall|j: int| 0 <= j < own implies (#[trigger] after[0].children[j])
        == parent[0].children[j] by {}
    assert forall|i: int| 0 < i < parent.len() implies (#[trigger] after[i]) == parent[i] by {}
    assert forall|i: int| off <= i < after.len() implies (#[trigger] after[i]).children.len()
        == child[i - off].children.len() && forall|j: int|
        0 <= j < child[i - off].children.len() ==> (#[trigger] after[i].children[j]) == child[i
            - off].children[j] + off by {
        assert forall|j: int| 0 <= j < child[i - off].children.len() implies (
        #[trigger] after[i].children[j]) == child[i - off].children[j] + off by {
            assert(child[i - off].children[j] < child.len());
        }
    }
    assert forall|i: int, j: int| 0 <= i < after.len() && 0 <= j < after[i].children.len() implies i
        < (#[trigger] after[i].children[j]) < after.len() by {
        if i == 0 {
            if j < own {
                assert(0 < parent[0].children[j] < parent.len());
            }
        } else if i < off {
            assert(i < parent[i].children[j] < parent.len());
        } else {
            assert(i - off < child[i - off].children[j] < child.len());
        }
    }
    assert forall|i: int, j: int, k: int, l: int|
        0 <= i < after.len() && 0 <= j < after[i].children.len() && 0 <= k < after.len() && 0 <= l
            < after[k].children.len() && (#[trigger] after[i].children[j])
            == #[trigger] after[k].children[l] implies i == k && j == l by {
        let first_old = i < off && (i > 0 || j < own);
        let second_old = k < off && (k > 0 || l < own);
        if first_old {
            assert(after[i].children[j] == parent[i].children[j]);
            assert(parent[i].children[j] < parent.len());
        } else if i > 0 {
            assert(after[i].children[j] == child[i - off].children[j] + off);
            assert(i - off < child[i - off].children[j]);
        }
        if second_old {
            assert(after[k].children[l] == parent[k].children[l]);
            assert(parent[k].children[l] < parent.len());
        } else if k > 0 {
            assert(after[k].children[l] == child[k - off].children[l] + off);
            assert(k - off < child[k - off].children[l]);
        }
        if first_old && second_old {
            assert(parent[i].children[j] == parent[k].children[l]);
        } else if i >= off && k >= off {
            assert(child[i - off].children[j] == child[k - off].children[l]);
        }
    }
    assert forall|c: int| 0 < c < after.len() implies #[trigger] has_parent(after, c) by {
        if c < off {
            assert(has_parent(parent, c));
            let (p, j) = choose|p: int, j: int| #[trigger] is_child_at(parent, p, j, c);
            if p == 0 {
                assert(after[0].children[j] == parent[0].children[j]);
            }
            assert(is_child_at(after, p, j, c));
        } else if c == off {
            assert(is_child_at(after, 0, own, c));
        } else {
            assert(has_parent(child, c - off));
            let (p, j) = choose|p: int, j: int| #[trigger] is_child_at(child, p, j, c - off);
            assert(after[p + off].children[j] == child[p + off - off].children[j] + off);
            assert(is_child_at(after, p + off, j, c));
        }
    }
}

/// A node without children added under the root of a tree makes a tree.
pub proof fn lemma_add_child_tree(parent: Seq<NodeView>, node: NodeView)
    requires
        is_tree(parent),
        node.children.len() == 0,
        parent.len() + 1 <= usize::MAX,
    ensures
        is_tree(crate::ast::ast::add_child_nodes(parent, node)),
{
    lemma_single_node(node);
    assert(crate::arena::shift_ids(node.children, parent.len() as int) =~= node.children);
    assert(crate::ast::ast::shift_nodes(seq![node], parent.len() as int) =~= seq![node]);
    assert(crate::ast::ast::add_child_nodes(parent, node) =~= hang_child_nodes(
        parent,
        seq![node],
    ));
    lemma_hang_child_tree(parent, seq![node]);
}

} // verus!
