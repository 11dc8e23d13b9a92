use vstd::prelude::*;

use crate::ast::ast::has_parent;
use crate::ast::ast::forward_links;
use crate::ast::ast::is_child_at;
use crate::ast::ast::is_descendant;
use crate::ast::ast::is_tree;
use crate::ast::ast::single_parent;
use crate::ast::ast::NodeView;
use crate::ast::iterators::children_postorder;
use crate::ast::iterators::subtree_postorder;
use crate::ast::iterators::tree_postorder;

verus! {

proof fn lemma_contains_concat(a: Seq<usize>, b: Seq<usize>, x: usize)
    ensures
        (a + b).contains(x) <==> a.contains(x) || b.contains(x),
{
    if a.contains(x) {
        let i = choose|i: int| 0 <= i < a.len() && a[i] == x;
        assert((a + b)[i] == x);
    }
    if b.contains(x) {
        let i = choose|i: int| 0 <= i < b.len() && b[i] == x;
        assert((a + b)[a.len() + i] == x);
    }
    if (a + b).contains(x) {
        let i = choose|i: int| 0 <= i < (a + b).len() && (a + b)[i] == x;
        if i < a.len() {
            assert(a[i] == x);
        } else {
            assert(b[i - a.len()] == x);
        }
    }
}

proof fn lemma_contains_push(a: Seq<usize>, y: usize, x: usize)
    ensures
        a.push(y).contains(x) <==> a.contains(x) || x == y,
{
    assert(a.push(y) =~= a + seq![y]);
    lemma_contains_concat(a, seq![y], x);
    if x == y {
        assert(seq![y][0] == x);
    }
}

/// A node among the postorders of the children from `k` on lies under one
/// of those children.
proof fn lemma_branch_of(nodes: Seq<NodeView>, n: usize, k: int, x: usize) -> (m: int)
    requires
        children_postorder(nodes, n, k).contains(x),
    ensures
        n < nodes.len(),
        0 <= k <= m < nodes[n as int].children.len(),
        n < nodes[n as int].children[m] < nodes.len(),
        subtree_postorder(nodes, nodes[n as int].children[m]).contains(x),
    decreases nodes[n as int].children.len() - k,
{
    if n < nodes.len() && 0 <= k < nodes[n as int].children.len() {
        let c = nodes[n as int].children[k];
        let first = if n < c < nodes.len() {
            subtree_postorder(nodes, c)
        } else {
            Seq::empty()
        };
        lemma_contains_concat(first, children_postorder(nodes, n, k + 1), x);
        if first.contains(x) {
            k
        } else {
            lemma_branch_of(nodes, n, k + 1, x)
        }
    } else {
        assert(false);
        0
    }
}

/// What lies under the `m`-th child is among the postorders of the children
/// from any `k <= m` on.
proof fn lemma_branch_among(nodes: Seq<NodeView>, n: usize, k: int, m: int, x: usize)
    requires
        n < nodes.len(),
        0 <= k <= m < nodes[n as int].children.len(),
        n < nodes[n as int].children[m] < nodes.len(),
        subtree_postorder(nodes, nodes[n as int].children[m]).contains(x),
    ensures
        children_postorder(nodes, n, k).contains(x),
    decreases m - k,
{
    let c = nodes[n as int].children[k];
    let first = if n < c < nodes.len() {
        subtree_postorder(nodes, c)
    } else {
        Seq::empty()
    };
    lemma_contains_concat(first, children_postorder(nodes, n, k + 1), x);
    if k < m {
        lemma_branch_among(nodes, n, k + 1, m, x);
    }
}

/// What lies under a child of a node lies under the node.
proof fn lemma_branch_within(nodes: Seq<NodeView>, n: usize, m: int, x: usize)
    requires
        n < nodes.len(),
        0 <= m < nodes[n as int].children.len(),
        n < nodes[n as int].children[m] < nodes.len(),
        subtree_postorder(nodes, nodes[n as int].children[m]).contains(x),
    ensures
        children_postorder(nodes, n, 0).contains(x),
        subtree_postorder(nodes, n).contains(x),
{
    lemma_branch_among(nodes, n, 0, m, x);
    lemma_contains_push(children_postorder(nodes, n, 0), n, x);
}

/// A subtree's postorder holds its root, in the last place.
proof fn lemma_holds_root(nodes: Seq<NodeView>, n: usize)
    requires
        n < nodes.len(),
    ensures
        subtree_postorder(nodes, n).contains(n),
        subtree_postorder(nodes, n).len() > 0,
        subtree_postorder(nodes, n).last() == n,
        subtree_postorder(nodes, n).drop_last() == children_postorder(nodes, n, 0),
{
    lemma_contains_push(children_postorder(nodes, n, 0), n, n);
    assert(children_postorder(nodes, n, 0).push(n).drop_last() =~= children_postorder(nodes, n, 0));
}

/// A node of a subtree's postorder is the root or among the children's.
proof fn lemma_root_or_below(nodes: Seq<NodeView>, n: usize, x: usize)
    requires
        subtree_postorder(nodes, n).contains(x),
    ensures
        n < nodes.len(),
        x == n || children_postorder(nodes, n, 0).contains(x),
{
    if n < nodes.len() {
        lemma_contains_push(children_postorder(nodes, n, 0), n, x);
    } else {
        assert(false);
    }
}

/// The nodes of a subtree are stored from its root on.
proof fn lemma_subtree_bounds(nodes: Seq<NodeView>, n: usize, x: usize)
    requires
        subtree_postorder(nodes, n).contains(x),
    ensures
        n <= x < nodes.len(),
    decreases nodes.len() - n,
{
    lemma_root_or_below(nodes, n, x);
    if x != n {
        let m = lemma_branch_of(nodes, n, 0, x);
        lemma_subtree_bounds(nodes, nodes[n as int].children[m], x);
    }
}

/// A node of a subtree other than its root has a parent in the subtree.
proof fn lemma_parent_within(nodes: Seq<NodeView>, n: usize, x: usize) -> (slot: (usize, int))
    requires
        subtree_postorder(nodes, n).contains(x),
        x != n,
    ensures
        is_child_at(nodes, slot.0 as int, slot.1, x as int),
        subtree_postorder(nodes, n).contains(slot.0),
    decreases nodes.len() - n,
{
    lemma_root_or_below(nodes, n, x);
    let m = lemma_branch_of(nodes, n, 0, x);
    let c = nodes[n as int].children[m];
    if x == c {
        lemma_holds_root(nodes, n);
        (n, m)
    } else {
        let slot = lemma_parent_within(nodes, c, x);
        lemma_branch_within(nodes, n, m, slot.0);
        slot
    }
}

/// Two subtrees that share a node lie one within the other.
proof fn lemma_comparable(nodes: Seq<NodeView>, a: usize, b: usize, x: usize)
    requires
        forward_links(nodes),
        single_parent(nodes),
        subtree_postorder(nodes, a).contains(x),
        subtree_postorder(nodes, b).contains(x),
    ensures
        subtree_postorder(nodes, b).contains(a) || subtree_postorder(nodes, a).contains(b),
    decreases x,
{
    lemma_subtree_bounds(nodes, a, x);
    lemma_subtree_bounds(nodes, b, x);
    if x == a || x == b {
    } else {
        let sa = lemma_parent_within(nodes, a, x);
        let sb = lemma_parent_within(nodes, b, x);
        assert(nodes[sa.0 as int].children[sa.1] == nodes[sb.0 as int].children[sb.1]);
        assert(sa.0 < nodes[sa.0 as int].children[sa.1]);
        lemma_comparable(nodes, a, b, sa.0);
    }
}

/// The subtrees under two children of one node share no node.
proof fn lemma_siblings_apart(nodes: Seq<NodeView>, n: usize, j: int, k: int, x: usize)
    requires
        forward_links(nodes),
        single_parent(nodes),
        n < nodes.len(),
        0 <= j < nodes[n as int].children.len(),
        0 <= k < nodes[n as int].children.len(),
        j != k,
        subtree_postorder(nodes, nodes[n as int].children[j]).contains(x),
    ensures
        !subtree_postorder(nodes, nodes[n as int].children[k]).contains(x),
{
    let a = nodes[n as int].children[j];
    let b = nodes[n as int].children[k];
    assert(n < a < nodes.len() && n < b < nodes.len());
    if subtree_postorder(nodes, b).contains(x) {
        lemma_comparable(nodes, a, b, x);
        assert(a != b);
        if subtree_postorder(nodes, b).contains(a) {
            let s = lemma_parent_within(nodes, b, a);
            assert(nodes[s.0 as int].children[s.1] == nodes[n as int].children[j]);
            lemma_subtree_bounds(nodes, b, s.0);
        } else {
            let s = lemma_parent_within(nodes, a, b);
            assert(nodes[s.0 as int].children[s.1] == nodes[n as int].children[k]);
            lemma_subtree_bounds(nodes, a, s.0);
        }
    }
}

proof fn lemma_concat_no_duplicates(a: Seq<usize>, b: Seq<usize>)
    requires
        a.no_duplicates(),
        b.no_duplicates(),
        forall|x: usize| a.contains(x) ==> !b.contains(x),
    ensures
        (a + b).no_duplicates(),
{
    assert forall|i: int, j: int| 0 <= i < (a + b).len() && 0 <= j < (a + b).len() && i != j implies (
    a + b)[i] != (a + b)[j] by {
        if i < a.len() && j >= a.len() {
            assert(a.contains(a[i]));
            assert(b.contains(b[j - a.len()]));
        } else if j < a.len() && i >= a.len() {
            assert(a.contains(a[j]));
            assert(b.contains(b[i - a.len()]));
        }
    }
}

/// No node occurs twice in a subtree's postorder.
proof fn lemma_subtree_distinct(nodes: Seq<NodeView>, n: usize)
    requires
        forward_links(nodes),
        single_parent(nodes),
    ensures
        subtree_postorder(nodes, n).no_duplicates(),
    decreases nodes.len() - n, 1int, 0int,
{
    if n < nodes.len() {
        let below = children_postorder(nodes, n, 0);
        lemma_children_distinct(nodes, n, 0);
        assert(below.push(n) =~= below + seq![n]);
        assert forall|x: usize| below.contains(x) implies !seq![n].contains(x) by {
            let m = lemma_branch_of(nodes, n, 0, x);
            lemma_subtree_bounds(nodes, nodes[n as int].children[m], x);
        }
        lemma_concat_no_duplicates(below, seq![n]);
    }
}

proof fn lemma_children_distinct(nodes: Seq<NodeView>, n: usize, k: int)
    requires
        forward_links(nodes),
        single_parent(nodes),
    ensures
        children_postorder(nodes, n, k).no_duplicates(),
    decreases nodes.len() - n, 0int, nodes[n as int].children.len() - k,
{
    if n < nodes.len() && 0 <= k < nodes[n as int].children.len() {
        let c = nodes[n as int].children[k];
        assert(n < c < nodes.len());
        let first = subtree_postorder(nodes, c);
        let rest = children_postorder(nodes, n, k + 1);
        lemma_subtree_distinct(nodes, c);
        lemma_children_distinct(nodes, n, k + 1);
        assert forall|x: usize| first.contains(x) implies !rest.contains(x) by {
            if rest.contains(x) {
                let m = lemma_branch_of(nodes, n, k + 1, x);
                lemma_siblings_apart(nodes, n, k, m, x);
            }
        }
        lemma_concat_no_duplicates(first, rest);
    }
}

/// A subtree holds the children of each of its nodes.
proof fn lemma_children_held(nodes: Seq<NodeView>, n: usize, p: usize, j: int)
    requires
        forward_links(nodes),
        subtree_postorder(nodes, n).contains(p),
        0 <= j < nodes[p as int].children.len(),
    ensures
        subtree_postorder(nodes, n).contains(nodes[p as int].children[j]),
    decreases nodes.len() - n,
{
    lemma_subtree_bounds(nodes, n, p);
    let c = nodes[p as int].children[j];
    assert(p < c < nodes.len());
    if p == n {
        lemma_holds_root(nodes, c);
        lemma_branch_within(nodes, n, j, c);
    } else {
        lemma_root_or_below(nodes, n, p);
        let m = lemma_branch_of(nodes, n, 0, p);
        lemma_children_held(nodes, nodes[n as int].children[m], p, j);
        lemma_branch_within(nodes, n, m, c);
    }
}

/// The postorder of a tree holds every node.
proof fn lemma_all_reached(nodes: Seq<NodeView>, x: usize)
    requires
        is_tree(nodes),
        x < nodes.len(),
    ensures
        tree_postorder(nodes).contains(x),
    decreases x,
{
    if x == 0 {
        lemma_holds_root(nodes, 0);
    } else {
        assert(has_parent(nodes, x as int));
        let (p, j) = choose|p: int, j: int| #[trigger] is_child_at(nodes, p, j, x as int);
        assert(p < nodes[p].children[j]);
        lemma_all_reached(nodes, p as usize);
        lemma_children_held(nodes, 0, p as usize, j);
    }
}

/// A descendant of a node lies in the node's subtree and is stored after it.
proof fn lemma_descendant_within(nodes: Seq<NodeView>, a: usize, d: usize)
    requires
        is_descendant(nodes, a as int, d as int),
    ensures
        a < d < nodes.len(),
        subtree_postorder(nodes, a).contains(d),
    decreases nodes.len() - a,
{
    let j = choose|j: int|
        0 <= j < nodes[a as int].children.len() && a < (#[trigger] nodes[a as int].children[j])
            < nodes.len() && (nodes[a as int].children[j] == d || is_descendant(
            nodes,
            nodes[a as int].children[j] as int,
            d as int,
        ));
    let c = nodes[a as int].children[j];
    if c == d {
        lemma_holds_root(nodes, c);
    } else {
        lemma_descendant_within(nodes, c, d);
    }
    lemma_branch_within(nodes, a, j, d);
}

/// The postorder of a subtree stands in one piece in the postorder of any
/// subtree that holds its root; the result is where the piece starts.
proof fn lemma_subtree_piece(nodes: Seq<NodeView>, n: usize, x: usize) -> (at: int)
    requires
        subtree_postorder(nodes, n).contains(x),
    ensures
        0 <= at,
        at + subtree_postorder(nodes, x).len() <= subtree_postorder(nodes, n).len(),
        subtree_postorder(nodes, n).subrange(at, at + subtree_postorder(nodes, x).len())
            == subtree_postorder(nodes, x),
    decreases nodes.len() - n, 1int, 0int,
{
    lemma_root_or_below(nodes, n, x);
    let whole = subtree_postorder(nodes, n);
    let piece = subtree_postorder(nodes, x);
    if x == n {
        assert(whole.subrange(0, whole.len() as int) =~= whole);
        0
    } else {
        let at = lemma_children_piece(nodes, n, 0, x);
        assert(whole.subrange(at, at + piece.len()) =~= children_postorder(nodes, n, 0).subrange(
            at,
            at + piece.len(),
        ));
        at
    }
}

proof fn lemma_children_piece(nodes: Seq<NodeView>, n: usize, k: int, x: usize) -> (at: int)
    requires
        children_postorder(nodes, n, k).contains(x),
    ensures
        0 <= at,
        at + subtree_postorder(nodes, x).len() <= children_postorder(nodes, n, k).len(),
        children_postorder(nodes, n, k).subrange(at, at + subtree_postorder(nodes, x).len())
            == subtree_postorder(nodes, x),
    decreases nodes.len() - n, 0int, nodes[n as int].children.len() - k,
{
    let piece = subtree_postorder(nodes, x);
    if n < nodes.len() && 0 <= k < nodes[n as int].children.len() {
        let c = nodes[n as int].children[k];
        let first = if n < c < nodes.len() {
            subtree_postorder(nodes, c)
        } else {
            Seq::empty()
        };
        let rest = children_postorder(nodes, n, k + 1);
        lemma_contains_concat(first, rest, x);
        if first.contains(x) {
            let at = lemma_subtree_piece(nodes, c, x);
            assert((first + rest).subrange(at, at + piece.len()) =~= first.subrange(
                at,
                at + piece.len(),
            ));
            at
        } else {
            let at = lemma_children_piece(nodes, n, k + 1, x);
            assert((first + rest).subrange(first.len() + at, first.len() + at + piece.len())
                =~= rest.subrange(at, at + piece.len()));
            first.len() + at
        }
    } else {
        assert(false);
        0
    }
}

/// In the postorder of a tree each node occurs exactly once, and nothing
/// else occurs.
pub proof fn postorder_visits_each_node_once(nodes: Seq<NodeView>)
    requires
        is_tree(nodes),
    ensures
        tree_postorder(nodes).no_duplicates(),
        forall|n: usize| n < nodes.len() ==> #[trigger] tree_postorder(nodes).contains(n),
        forall|i: int|
            0 <= i < tree_postorder(nodes).len() ==> (#[trigger] tree_postorder(nodes)[i])
                < nodes.len(),
{
    lemma_subtree_distinct(nodes, 0);
    assert forall|n: usize| n < nodes.len() implies #[trigger] tree_postorder(nodes).contains(
        n,
    ) by {
        lemma_all_reached(nodes, n);
    }
    assert forall|i: int| 0 <= i < tree_postorder(nodes).len() implies (#[trigger] tree_postorder(
        nodes,
    )[i]) < nodes.len() by {
        assert(tree_postorder(nodes).contains(tree_postorder(nodes)[i]));
        lemma_subtree_bounds(nodes, 0, tree_postorder(nodes)[i]);
    }
}

/// In the postorder of a tree a node comes strictly after each of its
/// descendants: if `a` stands at `i` and its descendant `d` at `j`, then
/// `j < i`.
pub proof fn postorder_puts_descendants_first(
    nodes: Seq<NodeView>,
    a: usize,
    d: usize,
    i: int,
    j: int,
)
    requires
        is_tree(nodes),
        is_descendant(nodes, a as int, d as int),
        0 <= i < tree_postorder(nodes).len(),
        0 <= j < tree_postorder(nodes).len(),
        tree_postorder(nodes)[i] == a,
        tree_postorder(nodes)[j] == d,
    ensures
        j < i,
{
    let whole = tree_postorder(nodes);
    let piece = subtree_postorder(nodes, a);
    lemma_descendant_within(nodes, a, d);
    lemma_all_reached(nodes, a);
    lemma_subtree_distinct(nodes, 0);
    let at = lemma_subtree_piece(nodes, 0, a);
    lemma_holds_root(nodes, a);
    lemma_root_or_below(nodes, a, d);
    let below = children_postorder(nodes, a, 0);
    let q = choose|q: int| 0 <= q < below.len() && below[q] == d;
    assert(piece[q] == d);
    assert(whole.subrange(at, at + piece.len())[q] == whole[at + q]);
    assert(whole.subrange(at, at + piece.len())[piece.len() - 1] == whole[at + piece.len() - 1]);
    assert(whole[at + q] == d);
    assert(whole[at + piece.len() - 1] == a);
}

} // verus!
