use std::collections::VecDeque;
use vstd::prelude::*;

use crate::ast::ast::forward_links;
use crate::ast::ast::Ast;
use crate::ast::ast::NodeView;

verus! {

/// The nodes of the subtree under `n`, each after all of its descendants,
/// children taken from left to right.
pub open spec fn subtree_postorder(nodes: Seq<NodeView>, n: usize) -> Seq<usize>
    decreases nodes.len() - n, 1int, 0int,
{
    if n < nodes.len() {
        children_postorder(nodes, n, 0).push(n)
    } else {
        Seq::empty()
    }
}

/// The postorders of the subtrees under the children of `n` from the
/// `k`-th on, one after the other.
pub open spec fn children_postorder(nodes: Seq<NodeView>, n: usize, k: int) -> Seq<usize>
    decreases nodes.len() - n, 0int, nodes[n as int].children.len() - k,
{
    if n < nodes.len() && 0 <= k < nodes[n as int].children.len() {
        let c = nodes[n as int].children[k];
        let first = if n < c < nodes.len() {
            subtree_postorder(nodes, c)
        } else {
            Seq::empty()
        };
        first + children_postorder(nodes, n, k + 1)
    } else {
        Seq::empty()
    }
}

/// The postorder of the whole tree.
pub open spec fn tree_postorder(nodes: Seq<NodeView>) -> Seq<usize> {
    subtree_postorder(nodes, 0)
}

/// What a traversal still owes once the child at position `done` of the
/// innermost open node is finished: that node's later children, the node
/// itself, and so on outwards. A frame is an open node with its own position
/// among its parent's children.
#[verifier::opaque]
pub open spec fn owed_after(nodes: Seq<NodeView>, frames: Seq<(usize, usize)>, done: int) -> Seq<
    usize,
>
    decreases frames.len(),
{
    if frames.len() == 0 {
        Seq::empty()
    } else {
        children_postorder(nodes, frames.last().0, done + 1).push(frames.last().0)
            + owed_after(nodes, frames.drop_last(), frames.last().1 as int)
    }
}

/// The frame at `m` holds a node of the arena; if it is not the outermost,
/// the node is the child of the frame below that the position names.
pub open spec fn linked_at(nodes: Seq<NodeView>, frames: Seq<(usize, usize)>, m: int) -> bool {
    &&& frames[m].0 < nodes.len()
    &&& m > 0 ==> frames[m].1 < nodes[frames[m - 1].0 as int].children.len() && nodes[frames[m
        - 1].0 as int].children[frames[m].1 as int] == frames[m].0
}

/// Each frame holds a node of the arena, and each but the outermost holds
/// the child of the frame below it that its position names.
#[verifier::opaque]
pub open spec fn frames_linked(nodes: Seq<NodeView>, frames: Seq<(usize, usize)>) -> bool {
    forall|m: int| 0 <= m < frames.len() ==> #[trigger] linked_at(nodes, frames, m)
}

/// What is left to emit in a state of the traversal: the subtree it is about
/// to descend into, if any, and what is owed after it.
#[verifier::opaque]
pub open spec fn pending(
    nodes: Seq<NodeView>,
    frames: Seq<(usize, usize)>,
    root: Option<usize>,
    child_index: int,
) -> Seq<usize> {
    match root {
        Some(r) => subtree_postorder(nodes, r) + owed_after(nodes, frames, child_index),
        None => if frames.len() == 0 {
            Seq::empty()
        } else {
            seq![frames.last().0] + owed_after(
                nodes,
                frames.drop_last(),
                frames.last().1 as int,
            )
        },
    }
}

/// At the start everything is pending.
proof fn lemma_start(nodes: Seq<NodeView>)
    ensures
        pending(nodes, Seq::empty(), Some(0), 0) == tree_postorder(nodes),
        frames_linked(nodes, Seq::empty()),
{
    reveal(pending);
    reveal(owed_after);
    reveal(frames_linked);
    assert(pending(nodes, Seq::empty(), Some(0), 0) =~= tree_postorder(nodes));
}

/// With no open node and no subtree to enter, nothing is pending.
proof fn lemma_finished(nodes: Seq<NodeView>, at: int)
    ensures
        pending(nodes, Seq::empty(), None, at) == Seq::<usize>::empty(),
        owed_after(nodes, Seq::empty(), at) == Seq::<usize>::empty(),
{
    reveal(pending);
    reveal(owed_after);
}

/// Entering a node opens a frame for it. Without children the node is the
/// next to emit; with children its first child is the next subtree.
proof fn lemma_enter(nodes: Seq<NodeView>, frames: Seq<(usize, usize)>, r: usize, at: usize)
    requires
        forward_links(nodes),
        frames_linked(nodes, frames),
        r < nodes.len(),
        frames.len() > 0 ==> at < nodes[frames.last().0 as int].children.len()
            && nodes[frames.last().0 as int].children[at as int] == r,
    ensures
        frames_linked(nodes, frames.push((r, at))),
        nodes[r as int].children.len() == 0 ==> pending(nodes, frames.push((r, at)), None, 0)
            == pending(nodes, frames, Some(r), at as int),
        nodes[r as int].children.len() > 0 ==> pending(
            nodes,
            frames.push((r, at)),
            Some(nodes[r as int].children[0]),
            0,
        ) == pending(nodes, frames, Some(r), at as int) && r < nodes[r as int].children[0]
            < nodes.len(),
{
    reveal(pending);
    reveal(owed_after);
    reveal(frames_linked);
    let grown = frames.push((r, at));
    assert(grown.drop_last() =~= frames);
    assert(grown.last() == (r, at));
    assert forall|m: int| 0 <= m < grown.len() implies #[trigger] linked_at(nodes, grown, m) by {
        if m < frames.len() {
            assert(linked_at(nodes, frames, m));
        } else if m > 0 {
            assert(grown[m - 1] == frames.last());
        }
    }
    if nodes[r as int].children.len() == 0 {
        assert(subtree_postorder(nodes, r) =~= seq![r]);
        assert(pending(nodes, grown, None, 0) =~= pending(nodes, frames, Some(r), at as int));
    } else {
        let first = nodes[r as int].children[0];
        assert(subtree_postorder(nodes, r) =~= (subtree_postorder(nodes, first)
            + children_postorder(nodes, r, 1)).push(r));
        assert(pending(nodes, grown, Some(first), 0) =~= pending(nodes, frames, Some(r), at as int));
    }
}

/// Emitting the innermost open node closes its frame.
proof fn lemma_emit(nodes: Seq<NodeView>, frames: Seq<(usize, usize)>, at: int)
    requires
        frames_linked(nodes, frames),
        frames.len() > 0,
    ensures
        frames_linked(nodes, frames.drop_last()),
        pending(nodes, frames, None, at) == seq![frames.last().0] + owed_after(
            nodes,
            frames.drop_last(),
            frames.last().1 as int,
        ),
        frames.last().0 < nodes.len(),
        frames.len() > 1 ==> frames.last().1 < nodes[frames.drop_last().last().0 as int].children.len(),
{
    reveal(pending);
    reveal(frames_linked);
    let rest = frames.drop_last();
    assert forall|m: int| 0 <= m < rest.len() implies #[trigger] linked_at(nodes, rest, m) by {
        assert(linked_at(nodes, frames, m));
    }
    assert(linked_at(nodes, frames, frames.len() - 1));
    if frames.len() > 1 {
        assert(rest.last() == frames[frames.len() - 2]);
    }
}

/// After the last child of the innermost open node, that node is emitted.
proof fn lemma_leave_last(nodes: Seq<NodeView>, frames: Seq<(usize, usize)>, done: int)
    requires
        frames_linked(nodes, frames),
        frames.len() > 0,
        done + 1 == nodes[frames.last().0 as int].children.len(),
    ensures
        owed_after(nodes, frames, done) == pending(nodes, frames, None, done),
{
    reveal(pending);
    reveal(owed_after);
    reveal(frames_linked);
    assert(linked_at(nodes, frames, frames.len() - 1));
    assert(children_postorder(nodes, frames.last().0, done + 1) =~= Seq::<usize>::empty());
    assert(owed_after(nodes, frames, done) =~= pending(nodes, frames, None, done));
}

/// After a child that is not the last, its next sibling is traversed.
proof fn lemma_next_sibling(nodes: Seq<NodeView>, frames: Seq<(usize, usize)>, done: int)
    requires
        forward_links(nodes),
        frames_linked(nodes, frames),
        frames.len() > 0,
        0 <= done,
        done + 1 < nodes[frames.last().0 as int].children.len(),
    ensures
        pending(nodes, frames, Some(nodes[frames.last().0 as int].children[done + 1]), done + 1)
            == owed_after(nodes, frames, done),
        nodes[frames.last().0 as int].children[done + 1] < nodes.len(),
{
    reveal(pending);
    reveal(owed_after);
    reveal(frames_linked);
    assert(linked_at(nodes, frames, frames.len() - 1));
    let top = frames.last().0;
    let next = nodes[top as int].children[done + 1];
    assert(children_postorder(nodes, top, done + 1) =~= subtree_postorder(nodes, next)
        + children_postorder(nodes, top, done + 2));
    assert(pending(nodes, frames, Some(next), done + 1) =~= owed_after(nodes, frames, done));
}

/// Moving the head of what is pending to what was emitted changes nothing.
proof fn lemma_move_head(emitted: Seq<usize>, x: usize, rest: Seq<usize>)
    ensures
        emitted.push(x) + rest == emitted + (seq![x] + rest),
        (seq![x] + rest).len() == rest.len() + 1,
{
    assert(emitted.push(x) + rest =~= emitted + (seq![x] + rest));
}

/// Computes the post order traversal of the tree, with a stack of open
/// nodes in place of recursion.
fn compute_post_order(ast: &Ast) -> (postorder: VecDeque<usize>)
    requires
        ast@.len() > 0,
        forward_links(ast@),
    ensures
        postorder@ == tree_postorder(ast@),
{
    let ghost nodes = ast@;
    let mut postorder: VecDeque<usize> = VecDeque::new();
    let mut queue: Vec<(usize, usize)> = Vec::new();
    let mut root: Option<usize> = Some(0);
    let mut child_index: usize = 0;
    proof {
        lemma_start(nodes);
        assert(queue@ =~= Seq::empty());
        assert(postorder@ + tree_postorder(nodes) =~= tree_postorder(nodes));
    }
    loop
        invariant
            nodes == ast@,
            nodes.len() > 0,
            forward_links(nodes),
            frames_linked(nodes, queue@),
            postorder@ + pending(nodes, queue@, root, child_index as int) == tree_postorder(nodes),
            root matches Some(r) ==> r < nodes.len(),
            root is Some && queue@.len() > 0 ==> child_index
                < nodes[queue@.last().0 as int].children.len()
                && nodes[queue@.last().0 as int].children[child_index as int] == root->Some_0,
        ensures
            postorder@ == tree_postorder(nodes),
        decreases
            pending(nodes, queue@, root, child_index as int).len(),
            (match root {
                Some(r) => nodes.len() - r,
                None => 0,
            }),
    {
        let ghost before = pending(nodes, queue@, root, child_index as int);
        let ghost frames = queue@;
        if let Some(r) = root {
            proof {
                lemma_enter(nodes, frames, r, child_index);
            }
            queue.push((r, child_index));
            assert(queue@.last() == (r, child_index));
            let root_children = &ast.nodes[r].children;
            assert(root_children@ == nodes[r as int].children);
            if root_children.len() == 0 {
                root = None;
            } else {
                root = Some(root_children[0]);
            }
            child_index = 0;
        } else if queue.len() > 0 {
            proof {
                lemma_emit(nodes, frames, child_index as int);
            }
            let ghost emitted = postorder@;
            let top = queue.pop().unwrap();
            assert(queue@ == frames.drop_last());
            let mut temp = top.0;
            let mut temp_childindex = top.1;
            postorder.push_back(temp);
            proof {
                lemma_move_head(emitted, temp, owed_after(nodes, queue@, temp_childindex as int));
            }
            while queue.len() > 0
                invariant
                    nodes == ast@,
                    forward_links(nodes),
                    frames_linked(nodes, queue@),
                    postorder@ + owed_after(nodes, queue@, temp_childindex as int)
                        == tree_postorder(nodes),
                    queue@.len() > 0 ==> temp_childindex
                        < nodes[queue@.last().0 as int].children.len(),
                    owed_after(nodes, queue@, temp_childindex as int).len() < before.len(),
                ensures
                    queue@.len() > 0 ==> queue@.last().0 < nodes.len() && temp_childindex + 1
                        < nodes[queue@.last().0 as int].children.len(),
                decreases queue@.len(),
            {
                let ghost open = queue@;
                proof {
                    lemma_emit(nodes, open, temp_childindex as int);
                }
                let peek = queue[queue.len() - 1].0;
                if temp_childindex != ast.nodes[peek].children.len() - 1 {
                    break ;
                }
                let ghost emitted = postorder@;
                proof {
                    lemma_leave_last(nodes, open, temp_childindex as int);
                }
                let frame = queue.pop().unwrap();
                assert(queue@ == open.drop_last());
                temp = frame.0;
                temp_childindex = frame.1;
                postorder.push_back(temp);
                proof {
                    lemma_move_head(
                        emitted,
                        temp,
                        owed_after(nodes, queue@, temp_childindex as int),
                    );
                }
            }
            if queue.len() > 0 {
                let peek = queue[queue.len() - 1].0;
                assert(peek == queue@.last().0);
                let peek_children = &ast.nodes[peek].children;
                proof {
                    lemma_emit(nodes, queue@, 0);
                    assert(peek_children@ == nodes[peek as int].children);
                    assert(peek_children.len() == peek_children@.len());
                    lemma_next_sibling(nodes, queue@, temp_childindex as int);
                }
                root = Some(peek_children[temp_childindex + 1]);
                child_index = temp_childindex + 1;
            } else {
                proof {
                    assert(queue@ =~= Seq::empty());
                    lemma_finished(nodes, temp_childindex as int);
                    lemma_finished(nodes, child_index as int);
                }
            }
        } else {
            proof {
                assert(queue@ =~= Seq::empty());
                lemma_finished(nodes, child_index as int);
                assert(postorder@ =~= postorder@ + Seq::<usize>::empty());
            }
            break ;
        }
    }
    postorder
}


/// Walks a syntax tree in postorder: every node after all of its
/// descendants. The order is computed once, when the walk is made.
pub struct PostOrderAstIterator {
    postorder: VecDeque<usize>,
}

impl View for PostOrderAstIterator {
    type V = Seq<usize>;

    /// The nodes that are still to come, in order.
    closed spec fn view(&self) -> Seq<usize> {
        self.postorder@
    }
}

impl PostOrderAstIterator {
    /// A walk over the whole of `ast`, starting before its first node.
    pub fn new(ast: &Ast) -> (iter: Self)
        requires
            ast@.len() > 0,
            forward_links(ast@),
        ensures
            iter@ == tree_postorder(ast@),
    {
        PostOrderAstIterator { postorder: compute_post_order(ast) }
    }

    /// The next node of the walk, if any is left.
    pub fn next(&mut self) -> (r: Option<usize>)
        ensures
            old(self)@.len() == 0 ==> r is None && final(self)@ == old(self)@,
            old(self)@.len() > 0 ==> r == Some(old(self)@[0]) && final(self)@ == old(
                self,
            )@.drop_first(),
    {
        let r = self.postorder.pop_front();
        proof {
            if old(self)@.len() > 0 {
                assert(self.postorder@ =~= old(self)@.drop_first());
            }
        }
        r
    }

    /// The nodes that are left, in order.
    pub fn collect(self) -> (r: Vec<usize>)
        ensures
            r@ == self@,
    {
        let mut walk = self;
        let mut r: Vec<usize> = Vec::new();
        loop
            invariant
                r@ + walk@ == self@,
            ensures
                r@ == self@,
            decreases walk@.len(),
        {
            let ghost left = walk@;
            let ghost taken = r@;
            match walk.next() {
                Some(n) => {
                    r.push(n);
                    assert(r@ + walk@ =~= taken + left);
                },
                None => {
                    assert(r@ =~= r@ + walk@);
                    break ;
                },
            }
        }
        r
    }
}

} // verus!
