use vstd::prelude::*;

use crate::arena::shift_ids;
use crate::arena::shifted;
use crate::grammar::Lexeme;
use crate::grammar::Symbol;

verus! {

/// Building block of a parse gen rule.
/// usize typed blocks refer to arena style IDs of other blocks.
#[derive(Debug)]
pub enum Block {
    /// Match a parsed AST symbol.
    Symbol(Symbol),
    /// Match a token.
    Token(Lexeme),
    /// Denote Conjunction operator: (X1  X2  X3 ...)
    _Sequence(Vec<usize>),
    /// Denote Disjunction operator: (X1 | X2 | X3 | ...)
    _Any(Vec<usize>),
    /// Denote Optionals: X?.
    _Maybe(usize),
    /// Denote Kleene Closures: X*
    _Star(usize),
    /// Denote Nonempty Kleene Closures: X+
    _Plus(usize),
    /// Denote discard subtree.
    _Discard(usize),
}

/// The mathematical content of a [`Block`].
pub enum BlockView {
    Symbol(Symbol),
    Token(Lexeme),
    Sequence(Seq<usize>),
    Any(Seq<usize>),
    Maybe(usize),
    Star(usize),
    Plus(usize),
    Discard(usize),
}

impl View for Block {
    type V = BlockView;

    open spec fn view(&self) -> BlockView {
        match self {
            Block::Symbol(s) => BlockView::Symbol(*s),
            Block::Token(l) => BlockView::Token(*l),
            Block::_Sequence(ids) => BlockView::Sequence(ids@),
            Block::_Any(ids) => BlockView::Any(ids@),
            Block::_Maybe(id) => BlockView::Maybe(*id),
            Block::_Star(id) => BlockView::Star(*id),
            Block::_Plus(id) => BlockView::Plus(*id),
            Block::_Discard(id) => BlockView::Discard(*id),
        }
    }
}

/// What a rule matches, as a term: the arena of a [`Rule`] unfolded from
/// its root.
pub enum Pattern {
    Symbol(Symbol),
    Token(Lexeme),
    Sequence(Seq<Pattern>),
    Any(Seq<Pattern>),
    Maybe(Box<Pattern>),
    Star(Box<Pattern>),
    Plus(Box<Pattern>),
    Discard(Box<Pattern>),
}

/// The block at `id` in `blocks`, unfolded, is `pattern`.
pub open spec fn unfolds_to(blocks: Seq<BlockView>, id: int, pattern: Pattern) -> bool
    decreases pattern,
{
    0 <= id < blocks.len() && match pattern {
        Pattern::Symbol(s) => blocks[id] == BlockView::Symbol(s),
        Pattern::Token(l) => blocks[id] == BlockView::Token(l),
        Pattern::Sequence(parts) => blocks[id] matches BlockView::Sequence(ids) && ids.len()
            == parts.len() && forall|k: int|
            0 <= k < parts.len() ==> unfolds_to(blocks, #[trigger] ids[k] as int, parts[k]),
        Pattern::Any(parts) => blocks[id] matches BlockView::Any(ids) && ids.len() == parts.len()
            && forall|k: int|
            0 <= k < parts.len() ==> unfolds_to(blocks, #[trigger] ids[k] as int, parts[k]),
        Pattern::Maybe(inner) => blocks[id] matches BlockView::Maybe(c) && unfolds_to(
            blocks,
            c as int,
            *inner,
        ),
        Pattern::Star(inner) => blocks[id] matches BlockView::Star(c) && unfolds_to(
            blocks,
            c as int,
            *inner,
        ),
        Pattern::Plus(inner) => blocks[id] matches BlockView::Plus(c) && unfolds_to(
            blocks,
            c as int,
            *inner,
        ),
        Pattern::Discard(inner) => blocks[id] matches BlockView::Discard(c) && unfolds_to(
            blocks,
            c as int,
            *inner,
        ),
    }
}

/// Every id in `block` is below `bound`.
pub open spec fn ids_below(block: BlockView, bound: int) -> bool {
    match block {
        BlockView::Symbol(_) => true,
        BlockView::Token(_) => true,
        BlockView::Sequence(ids) => forall|k: int| 0 <= k < ids.len() ==> #[trigger] ids[k] < bound,
        BlockView::Any(ids) => forall|k: int| 0 <= k < ids.len() ==> #[trigger] ids[k] < bound,
        BlockView::Maybe(c) => c < bound,
        BlockView::Star(c) => c < bound,
        BlockView::Plus(c) => c < bound,
        BlockView::Discard(c) => c < bound,
    }
}

/// Every id in the arena names a block of the arena.
pub open spec fn closed(blocks: Seq<BlockView>) -> bool {
    forall|i: int| 0 <= i < blocks.len() ==> ids_below(#[trigger] blocks[i], blocks.len() as int)
}

/// The `k`-th id that `block` holds, if it holds so many.
pub open spec fn names(block: BlockView, k: int) -> Option<usize> {
    match block {
        BlockView::Symbol(_) => None,
        BlockView::Token(_) => None,
        BlockView::Sequence(ids) => if 0 <= k < ids.len() {
            Some(ids[k])
        } else {
            None
        },
        BlockView::Any(ids) => if 0 <= k < ids.len() {
            Some(ids[k])
        } else {
            None
        },
        BlockView::Maybe(c) => if k == 0 {
            Some(c)
        } else {
            None
        },
        BlockView::Star(c) => if k == 0 {
            Some(c)
        } else {
            None
        },
        BlockView::Plus(c) => if k == 0 {
            Some(c)
        } else {
            None
        },
        BlockView::Discard(c) => if k == 0 {
            Some(c)
        } else {
            None
        },
    }
}

/// No block is named twice, be it by two blocks or by one.
pub open spec fn uniquely_named(blocks: Seq<BlockView>) -> bool {
    forall|i: int, k: int, j: int, l: int|
        0 <= i < blocks.len() && 0 <= j < blocks.len() && (#[trigger] names(blocks[i], k)) is Some
            && names(blocks[i], k) == #[trigger] names(blocks[j], l) ==> i == j && k == l
}

/// No block names `id`.
pub open spec fn unnamed(blocks: Seq<BlockView>, id: usize) -> bool {
    forall|i: int, k: int| 0 <= i < blocks.len() ==> #[trigger] names(blocks[i], k) != Some(id)
}

/// No block is named twice, and no block names `root`: what `root` reaches
/// is a tree.
pub open spec fn singly_named(blocks: Seq<BlockView>, root: usize) -> bool {
    uniquely_named(blocks) && unnamed(blocks, root)
}

/// What a block names is below the bound that its ids are below.
proof fn lemma_names_below(block: BlockView, bound: int, k: int)
    requires
        ids_below(block, bound),
    ensures
        names(block, k) matches Some(c) ==> c < bound,
{
}

/// No pattern unfolds from a block in two ways.
pub proof fn lemma_unfolds_once(blocks: Seq<BlockView>, id: int, p: Pattern, q: Pattern)
    requires
        unfolds_to(blocks, id, p),
        unfolds_to(blocks, id, q),
    ensures
        p == q,
    decreases p,
{
    match p {
        Pattern::Symbol(_) => {},
        Pattern::Token(_) => {},
        Pattern::Sequence(parts) => {
            let others = q->Sequence_0;
            let ids = blocks[id]->Sequence_0;
            assert forall|k: int| 0 <= k < parts.len() implies parts[k] == others[k] by {
                lemma_unfolds_once(blocks, ids[k] as int, parts[k], others[k]);
            }
            assert(parts =~= others);
        },
        Pattern::Any(parts) => {
            let others = q->Any_0;
            let ids = blocks[id]->Any_0;
            assert forall|k: int| 0 <= k < parts.len() implies parts[k] == others[k] by {
                lemma_unfolds_once(blocks, ids[k] as int, parts[k], others[k]);
            }
            assert(parts =~= others);
        },
        Pattern::Maybe(inner) => {
            lemma_unfolds_once(blocks, blocks[id]->Maybe_0 as int, *inner, *q->Maybe_0);
        },
        Pattern::Star(inner) => {
            lemma_unfolds_once(blocks, blocks[id]->Star_0 as int, *inner, *q->Star_0);
        },
        Pattern::Plus(inner) => {
            lemma_unfolds_once(blocks, blocks[id]->Plus_0 as int, *inner, *q->Plus_0);
        },
        Pattern::Discard(inner) => {
            lemma_unfolds_once(blocks, blocks[id]->Discard_0 as int, *inner, *q->Discard_0);
        },
    }
}

/// The number of constructors in a pattern.
pub open spec fn size(p: Pattern) -> nat
    decreases p,
{
    match p {
        Pattern::Symbol(_) => 1,
        Pattern::Token(_) => 1,
        Pattern::Sequence(parts) => 1 + size_all(parts),
        Pattern::Any(parts) => 1 + size_all(parts),
        Pattern::Maybe(inner) => 1 + size(*inner),
        Pattern::Star(inner) => 1 + size(*inner),
        Pattern::Plus(inner) => 1 + size(*inner),
        Pattern::Discard(inner) => 1 + size(*inner),
    }
}

/// The number of constructors in the patterns of `parts`.
pub open spec fn size_all(parts: Seq<Pattern>) -> nat
    decreases parts,
{
    if parts.len() == 0 {
        0
    } else {
        size_all(parts.drop_last()) + size(parts.last())
    }
}

proof fn lemma_part_smaller(parts: Seq<Pattern>, k: int)
    requires
        0 <= k < parts.len(),
    ensures
        size(parts[k]) <= size_all(parts),
    decreases parts.len(),
{
    if k < parts.len() - 1 {
        lemma_part_smaller(parts.drop_last(), k);
    }
}

/// `block` with its ids moved up by `offset`.
pub open spec fn shift_block(block: BlockView, offset: int) -> BlockView {
    match block {
        BlockView::Symbol(s) => BlockView::Symbol(s),
        BlockView::Token(l) => BlockView::Token(l),
        BlockView::Sequence(ids) => BlockView::Sequence(shift_ids(ids, offset)),
        BlockView::Any(ids) => BlockView::Any(shift_ids(ids, offset)),
        BlockView::Maybe(c) => BlockView::Maybe((c + offset) as usize),
        BlockView::Star(c) => BlockView::Star((c + offset) as usize),
        BlockView::Plus(c) => BlockView::Plus((c + offset) as usize),
        BlockView::Discard(c) => BlockView::Discard((c + offset) as usize),
    }
}

/// Every block of `blocks` with its ids moved up by `offset`.
pub open spec fn shift_blocks(blocks: Seq<BlockView>, offset: int) -> Seq<BlockView> {
    Seq::new(blocks.len(), |i: int| shift_block(blocks[i], offset))
}

/// `dst` holds the blocks of `src`, renumbered, from `offset` on; the block
/// at `skip` in `src` need not have been kept.
pub open spec fn carried(src: Seq<BlockView>, dst: Seq<BlockView>, offset: int, skip: int) -> bool {
    &&& 0 <= offset
    &&& src.len() + offset <= dst.len() <= usize::MAX
    &&& forall|i: int|
        0 <= i < src.len() && i != skip ==> #[trigger] dst[i + offset] == shift_block(
            src[i],
            offset,
        )
}

/// A pattern that unfolds in one arena unfolds in an arena that holds the
/// blocks of the first, renumbered. One block may have been changed on the
/// way, if the pattern is too small to pass through it.
pub proof fn lemma_carry(
    src: Seq<BlockView>,
    dst: Seq<BlockView>,
    offset: int,
    skip: int,
    skipped: Pattern,
    id: int,
    p: Pattern,
)
    requires
        carried(src, dst, offset, skip),
        unfolds_to(src, id, p),
        0 <= skip < src.len() ==> unfolds_to(src, skip, skipped) && size(p) < size(skipped),
    ensures
        unfolds_to(dst, id + offset, p),
    decreases p,
{
    if id == skip {
        lemma_unfolds_once(src, id, p, skipped);
    }
    assert(dst[id + offset] == shift_block(src[id], offset));
    match p {
        Pattern::Symbol(_) => {},
        Pattern::Token(_) => {},
        Pattern::Sequence(parts) => {
            let ids = src[id]->Sequence_0;
            let moved = dst[id + offset]->Sequence_0;
            assert forall|k: int| 0 <= k < parts.len() implies unfolds_to(
                dst,
                #[trigger] moved[k] as int,
                parts[k],
            ) by {
                lemma_part_smaller(parts, k);
                lemma_carry(src, dst, offset, skip, skipped, ids[k] as int, parts[k]);
            }
        },
        Pattern::Any(parts) => {
            let ids = src[id]->Any_0;
            let moved = dst[id + offset]->Any_0;
            assert forall|k: int| 0 <= k < parts.len() implies unfolds_to(
                dst,
                #[trigger] moved[k] as int,
                parts[k],
            ) by {
                lemma_part_smaller(parts, k);
                lemma_carry(src, dst, offset, skip, skipped, ids[k] as int, parts[k]);
            }
        },
        Pattern::Maybe(inner) => {
            lemma_carry(src, dst, offset, skip, skipped, src[id]->Maybe_0 as int, *inner);
        },
        Pattern::Star(inner) => {
            lemma_carry(src, dst, offset, skip, skipped, src[id]->Star_0 as int, *inner);
        },
        Pattern::Plus(inner) => {
            lemma_carry(src, dst, offset, skip, skipped, src[id]->Plus_0 as int, *inner);
        },
        Pattern::Discard(inner) => {
            lemma_carry(src, dst, offset, skip, skipped, src[id]->Discard_0 as int, *inner);
        },
    }
}

proof fn lemma_shift_nothing(block: BlockView)
    ensures
        shift_block(block, 0) == block,
{
    match block {
        BlockView::Sequence(ids) => {
            assert(shift_ids(ids, 0) =~= ids);
        },
        BlockView::Any(ids) => {
            assert(shift_ids(ids, 0) =~= ids);
        },
        _ => {},
    }
}

/// An arena that was only added to, or changed at `skip` alone, holds its
/// old blocks under their old ids.
proof fn lemma_kept(before: Seq<BlockView>, after: Seq<BlockView>, skip: int)
    requires
        before.len() <= after.len() <= usize::MAX,
        forall|i: int| 0 <= i < before.len() && i != skip ==> #[trigger] after[i] == before[i],
    ensures
        carried(before, after, 0, skip),
{
    assert forall|i: int| 0 <= i < before.len() && i != skip implies #[trigger] after[i + 0]
        == shift_block(before[i], 0) by {
        lemma_shift_nothing(before[i]);
    }
}

/// The pattern of a block with one id, given the pattern under that id.
pub open spec fn wrap_pattern(block: BlockView, inner: Pattern) -> Pattern {
    match block {
        BlockView::Maybe(_) => Pattern::Maybe(Box::new(inner)),
        BlockView::Star(_) => Pattern::Star(Box::new(inner)),
        BlockView::Plus(_) => Pattern::Plus(Box::new(inner)),
        BlockView::Discard(_) => Pattern::Discard(Box::new(inner)),
        _ => arbitrary(),
    }
}

/// `block` holds the one id `id`.
pub open spec fn wraps(block: BlockView, id: usize) -> bool {
    block == BlockView::Maybe(id) || block == BlockView::Star(id) || block == BlockView::Plus(id)
        || block == BlockView::Discard(id)
}

/// `a` followed by `b`, as one sequence: a sequence on either side takes
/// the other in, on the left first, and only where neither is one a new
/// sequence is made of the two.
pub open spec fn then_pattern(a: Pattern, b: Pattern) -> Pattern {
    match a {
        Pattern::Sequence(parts) => Pattern::Sequence(parts.push(b)),
        _ => match b {
            Pattern::Sequence(parts) => Pattern::Sequence(seq![a] + parts),
            _ => Pattern::Sequence(seq![a, b]),
        },
    }
}

/// `a` or else `b`, as one choice: a choice on either side takes the other
/// in, on the left first, and only where neither is one a new choice is made
/// of the two.
pub open spec fn or_pattern(a: Pattern, b: Pattern) -> Pattern {
    match a {
        Pattern::Any(parts) => Pattern::Any(parts.push(b)),
        _ => match b {
            Pattern::Any(parts) => Pattern::Any(seq![a] + parts),
            _ => Pattern::Any(seq![a, b]),
        },
    }
}

/// A block that lists `ids`: a choice if `any`, else a sequence.
pub open spec fn list_block(ids: Seq<usize>, any: bool) -> BlockView {
    if any {
        BlockView::Any(ids)
    } else {
        BlockView::Sequence(ids)
    }
}

/// `block` lists ids, as a choice if `any`, else as a sequence.
pub open spec fn is_list(block: BlockView, any: bool) -> bool {
    if any {
        block is Any
    } else {
        block is Sequence
    }
}

/// The ids that a listing block lists.
pub open spec fn listed(block: BlockView) -> Seq<usize> {
    match block {
        BlockView::Sequence(ids) => ids,
        BlockView::Any(ids) => ids,
        _ => Seq::empty(),
    }
}

/// The arena and the root of two rules joined under one listing block, a
/// choice if `any` and a sequence if not. The blocks of the right rule
/// follow those of the left, renumbered. If the left root is a list of the
/// kind, it takes the right root in at its end; else, if the right root is
/// one, it takes the left root in at its front and is the new root; else a
/// new block at the end lists the two roots.
pub open spec fn join_arena(
    left: Seq<BlockView>,
    left_root: usize,
    right: Seq<BlockView>,
    right_root: usize,
    any: bool,
) -> (Seq<BlockView>, usize) {
    let both = left + shift_blocks(right, left.len() as int);
    let moved_root = (right_root + left.len()) as usize;
    if is_list(left[left_root as int], any) {
        (
            both.update(
                left_root as int,
                list_block(listed(left[left_root as int]).push(moved_root), any),
            ),
            left_root,
        )
    } else if is_list(right[right_root as int], any) {
        (
            both.update(
                moved_root as int,
                list_block(
                    seq![left_root] + shift_ids(
                        listed(right[right_root as int]),
                        left.len() as int,
                    ),
                    any,
                ),
            ),
            moved_root,
        )
    } else {
        (both.push(list_block(seq![left_root, moved_root], any)), both.len() as usize)
    }
}

/// `p` is a choice if `any`, else a sequence.
pub open spec fn is_list_pattern(p: Pattern, any: bool) -> bool {
    if any {
        p is Any
    } else {
        p is Sequence
    }
}

/// The parts of a choice or a sequence.
pub open spec fn parts_of(p: Pattern) -> Seq<Pattern> {
    match p {
        Pattern::Sequence(parts) => parts,
        Pattern::Any(parts) => parts,
        _ => Seq::empty(),
    }
}

/// The choice or the sequence of `parts`.
pub open spec fn list_pattern(parts: Seq<Pattern>, any: bool) -> Pattern {
    if any {
        Pattern::Any(parts)
    } else {
        Pattern::Sequence(parts)
    }
}

/// A listing block unfolds to a list of the same kind, part by part, and
/// no other block unfolds to one.
proof fn lemma_list_unfolds(blocks: Seq<BlockView>, id: int, p: Pattern, any: bool)
    requires
        unfolds_to(blocks, id, p),
    ensures
        is_list(blocks[id], any) == is_list_pattern(p, any),
        is_list_pattern(p, any) ==> p == list_pattern(parts_of(p), any) && listed(blocks[id]).len()
            == parts_of(p).len() && forall|k: int|
            0 <= k < parts_of(p).len() ==> unfolds_to(
                blocks,
                #[trigger] listed(blocks[id])[k] as int,
                parts_of(p)[k],
            ),
{
}

/// A listing block unfolds to the list of what its ids unfold to.
proof fn lemma_list_folds(
    blocks: Seq<BlockView>,
    id: int,
    ids: Seq<usize>,
    parts: Seq<Pattern>,
    any: bool,
)
    requires
        0 <= id < blocks.len(),
        blocks[id] == list_block(ids, any),
        ids.len() == parts.len(),
        forall|k: int| 0 <= k < parts.len() ==> unfolds_to(blocks, #[trigger] ids[k] as int, parts[k]),
    ensures
        unfolds_to(blocks, id, list_pattern(parts, any)),
{
}

/// Add `offset` to the ids of `block`.
fn shift(block: &mut Block, offset: usize)
    requires
        ids_below(old(block)@, usize::MAX - offset + 1),
    ensures
        final(block)@ == shift_block(old(block)@, offset as int),
{
    match block {
        Block::_Sequence(children) => {
            let moved = shifted(children, offset);
            *children = moved;
        },
        Block::_Any(children) => {
            let moved = shifted(children, offset);
            *children = moved;
        },
        Block::_Maybe(child) => {
            *child = *child + offset;
        },
        Block::_Star(child) => {
            *child = *child + offset;
        },
        Block::_Plus(child) => {
            *child = *child + offset;
        },
        Block::_Discard(child) => {
            *child = *child + offset;
        },
        Block::Symbol(_) => {},
        Block::Token(_) => {},
    }
}

/// If `block` is a list of the kind asked for, put `id` at its end.
fn list_push(block: &mut Block, id: usize, any: bool) -> (done: bool)
    ensures
        done == is_list(old(block)@, any),
        done ==> final(block)@ == list_block(listed(old(block)@).push(id), any),
        !done ==> *final(block) == *old(block),
{
    match block {
        Block::_Sequence(children) => {
            if any {
                false
            } else {
                children.push(id);
                true
            }
        },
        Block::_Any(children) => {
            if any {
                children.push(id);
                true
            } else {
                false
            }
        },
        _ => false,
    }
}

/// If `block` is a list of the kind asked for, put `id` at its front.
fn list_push_front(block: &mut Block, id: usize, any: bool) -> (done: bool)
    ensures
        done == is_list(old(block)@, any),
        done ==> final(block)@ == list_block(seq![id] + listed(old(block)@), any),
        !done ==> *final(block) == *old(block),
{
    match block {
        Block::_Sequence(children) => {
            if any {
                false
            } else {
                children.insert(0, id);
                assert(children@ =~= seq![id] + old(block)@->Sequence_0);
                true
            }
        },
        Block::_Any(children) => {
            if any {
                children.insert(0, id);
                assert(children@ =~= seq![id] + old(block)@->Any_0);
                true
            } else {
                false
            }
        },
        _ => false,
    }
}

/// What a renumbered block names is what the block named, renumbered.
proof fn lemma_names_shifted(block: BlockView, offset: int, k: int)
    ensures
        names(shift_block(block, offset), k) == match names(block, k) {
            Some(c) => Some((c + offset) as usize),
            None => None,
        },
{
}

/// Two arenas put one after the other, the second renumbered, name no
/// block twice, and name neither of the two roots.
proof fn lemma_joined_names(
    left: Seq<BlockView>,
    right: Seq<BlockView>,
    joined: Seq<BlockView>,
    left_root: usize,
    right_root: usize,
)
    requires
        closed(left),
        closed(right),
        singly_named(left, left_root),
        singly_named(right, right_root),
        joined.len() == left.len() + right.len(),
        joined.len() <= usize::MAX,
        left_root < left.len(),
        right_root < right.len(),
        forall|i: int| 0 <= i < left.len() ==> #[trigger] joined[i] == left[i],
        forall|i: int|
            0 <= i < right.len() ==> #[trigger] joined[i + left.len()] == shift_block(
                right[i],
                left.len() as int,
            ),
    ensures
        uniquely_named(joined),
        unnamed(joined, left_root),
        unnamed(joined, (right_root + left.len()) as usize),
{
    let n = left.len() as int;
    assert forall|i: int, k: int, j: int, l: int|
        0 <= i < joined.len() && 0 <= j < joined.len() && (#[trigger] names(joined[i], k)) is Some
            && names(joined[i], k) == #[trigger] names(joined[j], l) implies i == j && k == l by {
        lemma_names_from(left, right, joined, i, k);
        lemma_names_from(left, right, joined, j, l);
        let c = names(joined[i], k)->Some_0;
        if i < n {
            assert(names(left[i], k) == names(left[j], l));
        } else {
            assert(names(right[i - n], k) == names(right[j - n], l));
        }
    }
    assert forall|i: int, k: int| 0 <= i < joined.len() implies #[trigger] names(joined[i], k)
        != Some(left_root) by {
        lemma_names_from(left, right, joined, i, k);
        if i < n {
            assert(names(left[i], k) != Some(left_root));
        }
    }
    assert forall|i: int, k: int| 0 <= i < joined.len() implies #[trigger] names(joined[i], k)
        != Some((right_root + n) as usize) by {
        lemma_names_from(left, right, joined, i, k);
        if i >= n {
            assert(names(right[i - n], k) != Some(right_root));
        }
    }
}

/// What a block of two arenas put one after the other names: a block of
/// the first names what it named, and a block of the second what it named,
/// renumbered.
proof fn lemma_names_from(
    left: Seq<BlockView>,
    right: Seq<BlockView>,
    joined: Seq<BlockView>,
    i: int,
    k: int,
)
    requires
        closed(left),
        closed(right),
        joined.len() == left.len() + right.len(),
        joined.len() <= usize::MAX,
        forall|i: int| 0 <= i < left.len() ==> #[trigger] joined[i] == left[i],
        forall|i: int|
            0 <= i < right.len() ==> #[trigger] joined[i + left.len()] == shift_block(
                right[i],
                left.len() as int,
            ),
        0 <= i < joined.len(),
    ensures
        names(joined[i], k) matches Some(c) ==> if i < left.len() {
            c < left.len() && names(left[i], k) == Some(c)
        } else {
            left.len() <= c < joined.len() && names(right[i - left.len()], k) == Some(
                (c - left.len()) as usize,
            )
        },
{
    let n = left.len() as int;
    if i < n {
        lemma_names_below(left[i], n, k);
    } else {
        assert(joined[(i - n) + n] == shift_block(right[i - n], n));
        lemma_names_shifted(right[i - n], n, k);
        lemma_names_below(right[i - n], right.len() as int, k);
    }
}

/// A listing block that takes in, at its front or at its end, an id that
/// no block names leaves the arena without a block named twice.
proof fn lemma_taken_in(
    before: Seq<BlockView>,
    after: Seq<BlockView>,
    at: int,
    x: usize,
    any: bool,
    front: bool,
    other: usize,
)
    requires
        0 <= at < before.len(),
        before.len() == after.len(),
        forall|i: int| 0 <= i < before.len() && i != at ==> #[trigger] after[i] == before[i],
        is_list(before[at], any),
        after[at] == list_block(
            if front {
                seq![x] + listed(before[at])
            } else {
                listed(before[at]).push(x)
            },
            any,
        ),
        uniquely_named(before),
        unnamed(before, x),
        unnamed(before, other),
        other != x,
    ensures
        uniquely_named(after),
        unnamed(after, other),
{
    let d: int = if front {
        1
    } else {
        0
    };
    let count = listed(before[at]).len() as int;
    assert forall|i: int, k: int, j: int, l: int|
        0 <= i < after.len() && 0 <= j < after.len() && (#[trigger] names(after[i], k)) is Some
            && names(after[i], k) == #[trigger] names(after[j], l) implies i == j && k == l by {
        let c = names(after[i], k)->Some_0;
        let ki = if i == at {
            k - d
        } else {
            k
        };
        let lj = if j == at {
            l - d
        } else {
            l
        };
        let i_new = i == at && (front && k == 0 || !front && k == count);
        let j_new = j == at && (front && l == 0 || !front && l == count);
        if !i_new {
            assert(names(before[i], ki) == Some(c));
        }
        if !j_new {
            assert(names(before[j], lj) == Some(c));
        }
    }
    assert forall|i: int, k: int| 0 <= i < after.len() implies #[trigger] names(after[i], k)
        != Some(other) by {
        let ki = if i == at {
            k - d
        } else {
            k
        };
        assert(names(before[i], ki) != Some(other));
    }
}

/// A new block that names only blocks which no block names, and none of
/// them twice, leaves the arena without a block named twice.
proof fn lemma_put_over(before: Seq<BlockView>, after: Seq<BlockView>, block: BlockView)
    requires
        after == before.push(block),
        after.len() <= usize::MAX,
        uniquely_named(before),
        closed(before),
        forall|k: int|
            (#[trigger] names(block, k)) matches Some(c) ==> c < before.len() && unnamed(before, c),
        forall|k: int, l: int|
            (#[trigger] names(block, k)) is Some && names(block, k) == #[trigger] names(block, l)
                ==> k == l,
    ensures
        singly_named(after, before.len() as usize),
        closed(after),
{
    let n = before.len() as int;
    assert forall|i: int, k: int, j: int, l: int|
        0 <= i < after.len() && 0 <= j < after.len() && (#[trigger] names(after[i], k)) is Some
            && names(after[i], k) == #[trigger] names(after[j], l) implies i == j && k == l by {
        let c = names(after[i], k)->Some_0;
        if i < n && j < n {
            assert(names(before[i], k) == names(before[j], l));
        } else if i < n {
            assert(unnamed(before, c));
            assert(names(before[i], k) != Some(c));
        } else if j < n {
            assert(unnamed(before, c));
            assert(names(before[j], l) != Some(c));
        }
    }
    assert forall|i: int, k: int| 0 <= i < after.len() implies #[trigger] names(after[i], k)
        != Some(n as usize) by {
        if i < n {
            lemma_names_below(before[i], n, k);
        }
    }
    assert forall|i: int| 0 <= i < after.len() implies ids_below(
        #[trigger] after[i],
        after.len() as int,
    ) by {
        if i < n {
            assert(ids_below(before[i], n));
        } else {
            lemma_ids_named(block, n + 1);
        }
    }
}

/// The ids of a block are below a bound if what it names is.
proof fn lemma_ids_named(block: BlockView, bound: int)
    requires
        forall|k: int| (#[trigger] names(block, k)) matches Some(c) ==> c < bound,
    ensures
        ids_below(block, bound),
{
    match block {
        BlockView::Sequence(ids) => {
            assert forall|k: int| 0 <= k < ids.len() implies #[trigger] ids[k] < bound by {
                assert(names(block, k) == Some(ids[k]));
            }
        },
        BlockView::Any(ids) => {
            assert forall|k: int| 0 <= k < ids.len() implies #[trigger] ids[k] < bound by {
                assert(names(block, k) == Some(ids[k]));
            }
        },
        BlockView::Maybe(c) => {
            assert(names(block, 0) == Some(c));
        },
        BlockView::Star(c) => {
            assert(names(block, 0) == Some(c));
        },
        BlockView::Plus(c) => {
            assert(names(block, 0) == Some(c));
        },
        BlockView::Discard(c) => {
            assert(names(block, 0) == Some(c));
        },
        _ => {},
    }
}

/// One nonterminal's production: an arena of blocks and the id of the block
/// that the production starts from.
#[derive(Debug)]
pub struct Rule {
    pub blocks: Vec<Block>,
    pub root: usize,
}

impl View for Rule {
    type V = Pattern;

    /// The pattern that the rule's arena unfolds to from its root.
    open spec fn view(&self) -> Pattern {
        choose|p: Pattern| unfolds_to(self.arena(), self.root as int, p)
    }
}

/// The pattern of a block that refers to no other block.
pub open spec fn leaf_pattern(block: BlockView) -> Pattern {
    match block {
        BlockView::Symbol(s) => Pattern::Symbol(s),
        BlockView::Token(l) => Pattern::Token(l),
        _ => arbitrary(),
    }
}

/// `block` refers to no other block.
pub open spec fn is_leaf(block: BlockView) -> bool {
    block is Symbol || block is Token
}

impl Rule {
    /// The blocks of the rule, as mathematical values.
    pub open spec fn arena(&self) -> Seq<BlockView> {
        Seq::new(self.blocks@.len(), |i: int| self.blocks@[i]@)
    }

    /// The ids in the arena name blocks of the arena, no block is named
    /// twice and none names the root, and the arena unfolds to a pattern
    /// from the root: what the root reaches is a tree.
    pub open spec fn well_formed(&self) -> bool {
        &&& closed(self.arena())
        &&& singly_named(self.arena(), self.root)
        &&& exists|p: Pattern| unfolds_to(self.arena(), self.root as int, p)
    }

    /// A well-formed rule unfolds to its pattern, and to no other.
    pub proof fn lemma_pattern(&self, p: Pattern)
        requires
            unfolds_to(self.arena(), self.root as int, p),
        ensures
            self@ == p,
            unfolds_to(self.arena(), self.root as int, self@),
    {
        lemma_unfolds_once(self.arena(), self.root as int, p, self@);
    }

    /// Construct a Rule to match a symbol.
    pub fn from_sym(symbol: Symbol) -> (r: Self)
        ensures
            r.well_formed(),
            r@ == Pattern::Symbol(symbol),
            r.arena() == seq![BlockView::Symbol(symbol)],
            r.root == 0,
    {
        Self::from(Block::Symbol(symbol))
    }

    /// Construct a Rule to match a token.
    pub fn from_tok(lexeme: Lexeme) -> (r: Self)
        ensures
            r.well_formed(),
            r@ == Pattern::Token(lexeme),
            r.arena() == seq![BlockView::Token(lexeme)],
            r.root == 0,
    {
        Self::from(Block::Token(lexeme))
    }

    /// Construct a Rule to match a block that refers to no other.
    pub fn from(block: Block) -> (r: Self)
        requires
            is_leaf(block@),
        ensures
            r.well_formed(),
            r@ == leaf_pattern(block@),
            r.arena() == seq![block@],
            r.root == 0,
    {
        let mut blocks: Vec<Block> = Vec::new();
        blocks.push(block);
        let r = Rule { blocks, root: 0 };
        proof {
            assert(r.arena() =~= seq![block@]);
            assert(unfolds_to(r.arena(), 0, leaf_pattern(block@)));
            r.lemma_pattern(leaf_pattern(block@));
        }
        r
    }

    /// Get root block of this rule.
    pub fn get_root(&mut self) -> (r: &mut Block)
        requires
            old(self).root < old(self).blocks@.len(),
        ensures
            *r == old(self).blocks@[old(self).root as int],
            final(self).root == old(self).root,
            final(self).blocks@ == old(self).blocks@.update(old(self).root as int, *final(r)),
    {
        &mut self.blocks[self.root]
    }

    /// Add an offset to the ids of all blocks in this rule from `first` on.
    fn increment_blocks(&mut self, first: usize, offset: usize)
        requires
            first <= old(self).blocks@.len(),
            forall|i: int|
                first <= i < old(self).blocks@.len() ==> ids_below(
                    #[trigger] old(self).arena()[i],
                    usize::MAX - offset + 1,
                ),
        ensures
            final(self).root == old(self).root,
            final(self).arena().len() == old(self).arena().len(),
            forall|i: int| 0 <= i < first ==> (#[trigger] final(self).arena()[i]) == old(
                self,
            ).arena()[i],
            forall|i: int|
                first <= i < old(self).arena().len() ==> (#[trigger] final(self).arena()[i])
                    == shift_block(old(self).arena()[i], offset as int),
    {
        let mut i: usize = first;
        while i < self.blocks.len()
            invariant
                first <= i <= self.blocks@.len(),
                self.root == old(self).root,
                self.blocks@.len() == old(self).blocks@.len(),
                forall|k: int| 0 <= k < first ==> (#[trigger] self.arena()[k]) == old(
                    self,
                ).arena()[k],
                forall|k: int|
                    i <= k < self.blocks@.len() ==> (#[trigger] self.arena()[k]) == old(
                        self,
                    ).arena()[k],
                forall|k: int|
                    first <= k < i ==> (#[trigger] self.arena()[k]) == shift_block(
                        old(self).arena()[k],
                        offset as int,
                    ),
                forall|k: int|
                    first <= k < old(self).blocks@.len() ==> ids_below(
                        #[trigger] old(self).arena()[k],
                        usize::MAX - offset + 1,
                    ),
            decreases self.blocks@.len() - i,
        {
            let ghost before = self.arena();
            assert(before[i as int] == old(self).arena()[i as int]);
            shift(&mut self.blocks[i], offset);
            assert(self.arena()[i as int] == shift_block(before[i as int], offset as int));
            assert forall|k: int| 0 <= k < self.blocks@.len() && k != i implies (
            #[trigger] self.arena()[k]) == before[k] by {}
            i += 1;
        }
    }

    /// Join this rule and `rule` under one listing block, a choice if `any`
    /// and a sequence if not. The blocks of `rule` follow those of this
    /// rule, renumbered. A listing block of that kind at either root takes
    /// the other root in; else a new block lists the two roots.
    pub(crate) fn join(self, rule: Rule, any: bool) -> (r: Self)
        requires
            self.well_formed(),
            rule.well_formed(),
        ensures
            r.well_formed(),
            r@ == if any {
                or_pattern(self@, rule@)
            } else {
                then_pattern(self@, rule@)
            },
            (r.arena(), r.root) == join_arena(self.arena(), self.root, rule.arena(), rule.root, any),
    {
        let ghost left = self.arena();
        let ghost right = rule.arena();
        let ghost a = self@;
        let ghost b = rule@;
        proof {
            self.lemma_pattern(choose|p: Pattern| unfolds_to(left, self.root as int, p));
            rule.lemma_pattern(choose|p: Pattern| unfolds_to(right, rule.root as int, p));
        }
        let mut r = self;
        let mut rule = rule;
        let old_len = r.blocks.len();
        r.blocks.append(&mut rule.blocks);
        let ghost joined = r.arena();
        assert(r.blocks.len() == left.len() + right.len());
        assert forall|i: int| 0 <= i < left.len() implies #[trigger] joined[i] == left[i] by {}
        assert forall|i: int| 0 <= i < right.len() implies #[trigger] joined[left.len() + i]
            == right[i] by {}
        assert forall|i: int| old_len <= i < joined.len() implies ids_below(
            #[trigger] joined[i],
            usize::MAX - old_len + 1,
        ) by {
            assert(joined[i] == right[i - left.len()]);
            assert(ids_below(right[i - left.len()], right.len() as int));
        }
        r.increment_blocks(old_len, old_len);
        let rule_root_i = rule.root + old_len;
        let ghost moved = r.arena();
        assert forall|i: int| 0 <= i < right.len() implies #[trigger] moved[i + left.len()]
            == shift_block(right[i], left.len() as int) by {
            assert(joined[left.len() + i] == right[i]);
        }
        assert forall|i: int| 0 <= i < left.len() implies #[trigger] moved[i] == left[i] by {
            assert(joined[i] == left[i]);
        }
        assert forall|i: int| 0 <= i < moved.len() implies ids_below(
            #[trigger] moved[i],
            moved.len() as int,
        ) by {
            if i < left.len() {
                assert(ids_below(left[i], left.len() as int));
            } else {
                assert(moved[(i - left.len()) + left.len()] == shift_block(
                    right[i - left.len()],
                    left.len() as int,
                ));
                assert(ids_below(right[i - left.len()], right.len() as int));
            }
        }
        let root = r.root;
        proof {
            lemma_joined_names(left, right, moved, root, rule.root);
            assert(moved =~= left + shift_blocks(right, left.len() as int));
        }
        assert(moved[root as int] == left[root as int]);
        assert(moved[rule.root + left.len()] == shift_block(
            right[rule.root as int],
            left.len() as int,
        ));
        proof {
            lemma_list_unfolds(left, root as int, a, any);
            lemma_list_unfolds(right, rule.root as int, b, any);
        }
        if list_push(&mut r.blocks[root], rule_root_i, any) {
            proof {
                let after = r.arena();
                let parts = parts_of(a);
                let ids = listed(left[root as int]);
                assert(after[root as int] == list_block(ids.push(rule_root_i), any));
                assert forall|i: int| 0 <= i < moved.len() && i != root implies #[trigger] after[i]
                    == moved[i] by {}
                lemma_kept(left, after, root as int);
                assert(carried(right, after, left.len() as int, -1));
                lemma_carry(right, after, left.len() as int, -1, b, rule.root as int, b);
                assert forall|k: int| 0 <= k < parts.push(b).len() implies unfolds_to(
                    after,
                    #[trigger] ids.push(rule_root_i)[k] as int,
                    parts.push(b)[k],
                ) by {
                    if k < parts.len() {
                        lemma_part_smaller(parts, k);
                        assert(unfolds_to(left, ids[k] as int, parts[k]));
                        lemma_carry(left, after, 0, root as int, a, ids[k] as int, parts[k]);
                    }
                }
                lemma_list_folds(after, root as int, ids.push(rule_root_i), parts.push(b), any);
                r.lemma_pattern(list_pattern(parts.push(b), any));
                lemma_taken_in(moved, after, root as int, rule_root_i, any, false, root);
                assert(after =~= join_arena(left, root, right, rule.root, any).0);
                assert forall|i: int| 0 <= i < after.len() implies ids_below(
                    #[trigger] after[i],
                    after.len() as int,
                ) by {
                    if i != root {
                        assert(ids_below(moved[i], moved.len() as int));
                    } else {
                        assert(ids_below(left[i], left.len() as int));
                    }
                }
            }
        } else if list_push_front(&mut r.blocks[rule_root_i], root, any) {
            r.root = rule_root_i;
            proof {
                let after = r.arena();
                let parts = parts_of(b);
                let ids = listed(right[rule.root as int]);
                let there = shift_ids(ids, left.len() as int);
                assert(listed(moved[rule_root_i as int]) == there);
                assert(after[rule_root_i as int] == list_block(seq![root] + there, any));
                assert forall|i: int|
                    0 <= i < moved.len() && i != rule_root_i implies #[trigger] after[i]
                    == moved[i] by {}
                lemma_kept(left, after, -1);
                lemma_carry(left, after, 0, -1, a, root as int, a);
                assert forall|i: int| 0 <= i < right.len() && i != rule.root implies #[trigger] after[i
                    + left.len()] == shift_block(right[i], left.len() as int) by {
                    assert(moved[i + left.len()] == shift_block(right[i], left.len() as int));
                }
                assert(carried(right, after, left.len() as int, rule.root as int));
                assert forall|k: int| 0 <= k < (seq![a] + parts).len() implies unfolds_to(
                    after,
                    #[trigger] (seq![root] + there)[k] as int,
                    (seq![a] + parts)[k],
                ) by {
                    if k > 0 {
                        lemma_part_smaller(parts, k - 1);
                        assert(unfolds_to(right, ids[k - 1] as int, parts[k - 1]));
                        lemma_carry(
                            right,
                            after,
                            left.len() as int,
                            rule.root as int,
                            b,
                            ids[k - 1] as int,
                            parts[k - 1],
                        );
                        assert(ids[k - 1] < right.len());
                    }
                }
                lemma_list_folds(
                    after,
                    rule_root_i as int,
                    seq![root] + there,
                    seq![a] + parts,
                    any,
                );
                r.lemma_pattern(list_pattern(seq![a] + parts, any));
                lemma_taken_in(moved, after, rule_root_i as int, root, any, true, rule_root_i);
                assert(!is_list(left[root as int], any));
                assert(after =~= join_arena(left, root, right, rule.root, any).0);
                assert forall|i: int| 0 <= i < after.len() implies ids_below(
                    #[trigger] after[i],
                    after.len() as int,
                ) by {
                    assert(ids_below(moved[i], moved.len() as int));
                }
            }
        } else {
            let mut pair: Vec<usize> = Vec::new();
            pair.push(root);
            pair.push(rule_root_i);
            assert(pair@ =~= seq![root, rule_root_i]);
            if any {
                r.blocks.push(Block::_Any(pair));
            } else {
                r.blocks.push(Block::_Sequence(pair));
            }
            r.root = r.blocks.len() - 1;
            proof {
                let after = r.arena();
                assert(r.blocks.len() == r.blocks@.len());
                assert(after[r.root as int] == list_block(seq![root, rule_root_i], any));
                assert forall|i: int| 0 <= i < moved.len() implies #[trigger] after[i]
                    == moved[i] by {}
                lemma_kept(left, after, -1);
                lemma_carry(left, after, 0, -1, a, root as int, a);
                assert forall|i: int| 0 <= i < right.len() implies #[trigger] after[i + left.len()]
                    == shift_block(right[i], left.len() as int) by {
                    assert(moved[i + left.len()] == shift_block(right[i], left.len() as int));
                }
                assert(carried(right, after, left.len() as int, -1));
                lemma_carry(right, after, left.len() as int, -1, b, rule.root as int, b);
                let whole = if any {
                    Pattern::Any(seq![a, b])
                } else {
                    Pattern::Sequence(seq![a, b])
                };
                assert(unfolds_to(after, r.root as int, whole));
                r.lemma_pattern(whole);
                assert(after =~= moved.push(list_block(seq![root, rule_root_i], any)));
                lemma_put_over(moved, after, list_block(seq![root, rule_root_i], any));
                assert(!is_list(left[root as int], any));
                assert(!is_list(right[rule.root as int], any));
            }
        }
        r
    }

    /// Match this concatenated with another rule.
    pub fn then(self, rule: Rule) -> (r: Self)
        requires
            self.well_formed(),
            rule.well_formed(),
        ensures
            r.well_formed(),
            r@ == then_pattern(self@, rule@),
            (r.arena(), r.root) == join_arena(
                self.arena(),
                self.root,
                rule.arena(),
                rule.root,
                false,
            ),
    {
        self.join(rule, false)
    }

    /// Match this or another rule.
    pub fn or(self, rule: Rule) -> (r: Self)
        requires
            self.well_formed(),
            rule.well_formed(),
        ensures
            r.well_formed(),
            r@ == or_pattern(self@, rule@),
            (r.arena(), r.root) == join_arena(self.arena(), self.root, rule.arena(), rule.root, true),
    {
        self.join(rule, true)
    }

    /// Match this concatenated with a block that refers to no other.
    pub fn then_block(self, block: Block) -> (r: Self)
        requires
            self.well_formed(),
            is_leaf(block@),
        ensures
            r.well_formed(),
            r@ == then_pattern(self@, leaf_pattern(block@)),
            (r.arena(), r.root) == join_arena(self.arena(), self.root, seq![block@], 0, false),
    {
        self.join(Rule::from(block), false)
    }

    /// Match this concatenated with a symbol.
    pub fn then_sym(self, symbol: Symbol) -> (r: Self)
        requires
            self.well_formed(),
        ensures
            r.well_formed(),
            r@ == then_pattern(self@, Pattern::Symbol(symbol)),
            (r.arena(), r.root) == join_arena(
                self.arena(),
                self.root,
                seq![BlockView::Symbol(symbol)],
                0,
                false,
            ),
    {
        self.then_block(Block::Symbol(symbol))
    }

    /// Match this concatenated with a token.
    pub fn then_tok(self, lexeme: Lexeme) -> (r: Self)
        requires
            self.well_formed(),
        ensures
            r.well_formed(),
            r@ == then_pattern(self@, Pattern::Token(lexeme)),
            (r.arena(), r.root) == join_arena(
                self.arena(),
                self.root,
                seq![BlockView::Token(lexeme)],
                0,
                false,
            ),
    {
        self.then_block(Block::Token(lexeme))
    }

    /// Match this then one of the following, which are taken out of
    /// `blocks`; each refers to no other block.
    pub fn then_one_of(self, blocks: &mut Vec<Block>) -> (r: Self)
        requires
            self.well_formed(),
            forall|i: int| 0 <= i < old(blocks)@.len() ==> is_leaf(#[trigger] old(blocks)@[i]@),
        ensures
            final(blocks)@.len() == 0,
            r.well_formed(),
            r@ == then_pattern(
                self@,
                Pattern::Any(
                    Seq::new(old(blocks)@.len(), |i: int| leaf_pattern(old(blocks)@[i]@)),
                ),
            ),
            (r.arena(), r.root) == join_arena(
                self.arena(),
                self.root,
                Seq::new(old(blocks)@.len(), |i: int| old(blocks)@[i]@).push(
                    BlockView::Any(Seq::new(old(blocks)@.len(), |k: int| k as usize)),
                ),
                old(blocks)@.len() as usize,
                false,
            ),
    {
        let ghost options = Seq::new(old(blocks)@.len(), |i: int| leaf_pattern(old(blocks)@[i]@));
        let mut choice: Vec<Block> = Vec::new();
        choice.append(blocks);
        let count = choice.len();
        let mut ids: Vec<usize> = Vec::new();
        let mut i: usize = 0;
        while i < count
            invariant
                i <= count,
                ids@.len() == i,
                forall|k: int| 0 <= k < i ==> ids@[k] == k,
            decreases count - i,
        {
            ids.push(i);
            i += 1;
        }
        choice.push(Block::_Any(ids));
        let one_of = Rule { blocks: choice, root: count };
        proof {
            let arena = one_of.arena();
            assert(choice.len() == choice@.len());
            assert forall|k: int| 0 <= k < options.len() implies unfolds_to(
                arena,
                #[trigger] ids@[k] as int,
                options[k],
            ) by {
                assert(arena[k] == old(blocks)@[k]@);
            }
            assert(unfolds_to(arena, count as int, Pattern::Any(options)));
            one_of.lemma_pattern(Pattern::Any(options));
            let leaves = arena.subrange(0, count as int);
            assert forall|k: int| 0 <= k < count implies is_leaf(#[trigger] leaves[k]) by {
                assert(arena[k] == old(blocks)@[k]@);
            }
            assert(arena =~= leaves.push(BlockView::Any(ids@)));
            assert forall|i: int, k: int| 0 <= i < leaves.len() implies (#[trigger] names(
                leaves[i],
                k,
            )) is None by {
                assert(is_leaf(leaves[i]));
            }
            lemma_put_over(leaves, arena, BlockView::Any(ids@));
            assert(ids@ =~= Seq::new(old(blocks)@.len(), |k: int| k as usize));
            assert(leaves =~= Seq::new(old(blocks)@.len(), |i: int| old(blocks)@[i]@));
        }
        self.join(one_of, false)
    }

    /// Match this then maybe the following block, which refers to no other.
    pub fn then_maybe(self, block: Block) -> (r: Self)
        requires
            self.well_formed(),
            is_leaf(block@),
        ensures
            r.well_formed(),
            r@ == then_pattern(self@, Pattern::Maybe(Box::new(leaf_pattern(block@)))),
            (r.arena(), r.root) == join_arena(
                self.arena(),
                self.root,
                seq![block@, BlockView::Maybe(0)],
                1,
                false,
            ),
    {
        self.join(Rule::from(block).maybe(), false)
    }

    /// Match this then possibly any amount of the new block, which refers
    /// to no other.
    pub fn then_star(self, block: Block) -> (r: Self)
        requires
            self.well_formed(),
            is_leaf(block@),
        ensures
            r.well_formed(),
            r@ == then_pattern(self@, Pattern::Star(Box::new(leaf_pattern(block@)))),
            (r.arena(), r.root) == join_arena(
                self.arena(),
                self.root,
                seq![block@, BlockView::Star(0)],
                1,
                false,
            ),
    {
        self.join(Rule::from(block).star(), false)
    }

    /// Match this then one or more of the new block, which refers to no
    /// other.
    pub fn then_plus(self, block: Block) -> (r: Self)
        requires
            self.well_formed(),
            is_leaf(block@),
        ensures
            r.well_formed(),
            r@ == then_pattern(self@, Pattern::Plus(Box::new(leaf_pattern(block@)))),
            (r.arena(), r.root) == join_arena(
                self.arena(),
                self.root,
                seq![block@, BlockView::Plus(0)],
                1,
                false,
            ),
    {
        self.join(Rule::from(block).plus(), false)
    }

    /// Match this or a block that refers to no other.
    fn or_block(self, block: Block) -> (r: Self)
        requires
            self.well_formed(),
            is_leaf(block@),
        ensures
            r.well_formed(),
            r@ == or_pattern(self@, leaf_pattern(block@)),
            (r.arena(), r.root) == join_arena(self.arena(), self.root, seq![block@], 0, true),
    {
        self.or(Rule::from(block))
    }

    /// Match this or a symbol.
    pub fn or_sym(self, symbol: Symbol) -> (r: Self)
        requires
            self.well_formed(),
        ensures
            r.well_formed(),
            r@ == or_pattern(self@, Pattern::Symbol(symbol)),
            (r.arena(), r.root) == join_arena(
                self.arena(),
                self.root,
                seq![BlockView::Symbol(symbol)],
                0,
                true,
            ),
    {
        self.or_block(Block::Symbol(symbol))
    }

    /// Match this or a token.
    pub fn or_tok(self, lexeme: Lexeme) -> (r: Self)
        requires
            self.well_formed(),
        ensures
            r.well_formed(),
            r@ == or_pattern(self@, Pattern::Token(lexeme)),
            (r.arena(), r.root) == join_arena(
                self.arena(),
                self.root,
                seq![BlockView::Token(lexeme)],
                0,
                true,
            ),
    {
        self.or_block(Block::Token(lexeme))
    }

    /// Put `block`, which refers to the root, over the root.
    fn wrap_root(self, block: Block) -> (r: Self)
        requires
            self.well_formed(),
            wraps(block@, self.root),
        ensures
            r.well_formed(),
            r@ == wrap_pattern(block@, self@),
            r.arena() == self.arena().push(block@),
            r.root == self.arena().len(),
    {
        let ghost before = self.arena();
        let ghost inner = self@;
        let mut r = self;
        r.blocks.push(block);
        r.root = r.blocks.len() - 1;
        proof {
            let after = r.arena();
            assert(r.blocks@.len() == r.blocks.len());
            assert forall|i: int| 0 <= i < before.len() implies #[trigger] after[i]
                == before[i] by {}
            lemma_kept(before, after, -1);
            lemma_carry(before, after, 0, -1, inner, self.root as int, inner);
            assert(after[r.root as int] == block@);
            assert(unfolds_to(after, r.root as int, wrap_pattern(block@, inner)));
            r.lemma_pattern(wrap_pattern(block@, inner));
            assert(after =~= before.push(block@));
            lemma_put_over(before, after, block@);
        }
        r
    }

    /// Match one or zero of this.
    pub fn maybe(self) -> (r: Self)
        requires
            self.well_formed(),
        ensures
            r.well_formed(),
            r@ == Pattern::Maybe(Box::new(self@)),
            r.arena() == self.arena().push(BlockView::Maybe(self.root)),
            r.root == self.arena().len(),
    {
        let root = self.root;
        self.wrap_root(Block::_Maybe(root))
    }

    /// Match zero or more of this.
    pub fn star(self) -> (r: Self)
        requires
            self.well_formed(),
        ensures
            r.well_formed(),
            r@ == Pattern::Star(Box::new(self@)),
            r.arena() == self.arena().push(BlockView::Star(self.root)),
            r.root == self.arena().len(),
    {
        let root = self.root;
        self.wrap_root(Block::_Star(root))
    }

    /// Match one or more of this.
    pub fn plus(self) -> (r: Self)
        requires
            self.well_formed(),
        ensures
            r.well_formed(),
            r@ == Pattern::Plus(Box::new(self@)),
            r.arena() == self.arena().push(BlockView::Plus(self.root)),
            r.root == self.arena().len(),
    {
        let root = self.root;
        self.wrap_root(Block::_Plus(root))
    }

    /// Don't include this subtree in the AST.
    pub fn discard(self) -> (r: Self)
        requires
            self.well_formed(),
        ensures
            r.well_formed(),
            r@ == Pattern::Discard(Box::new(self@)),
            r.arena() == self.arena().push(BlockView::Discard(self.root)),
            r.root == self.arena().len(),
    {
        let root = self.root;
        self.wrap_root(Block::_Discard(root))
    }
}

} // verus!
