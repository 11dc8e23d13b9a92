use vstd::prelude::*;
use vstd::string::StringExecFns;

use crate::outline::deeper;
use crate::outline::indent;
use crate::outline::push_indent;
use crate::outline::step_in;
use crate::parser::errors::Error;
use crate::parser::meta_parse_rule::unfolds_to;
use crate::parser::meta_parse_rule::Block;
use crate::parser::meta_parse_rule::Pattern;
use crate::parser::meta_parse_rule::Rule;

verus! {

/// What names a pattern on its line of the outline.
pub open spec fn label(p: Pattern) -> Seq<char> {
    match p {
        Pattern::Symbol(s) => "Symbol<"@ + s.name_chars() + ">"@,
        Pattern::Token(l) => "Token<"@ + l.name_chars() + ">"@,
        Pattern::Sequence(_) => "Sequence"@,
        Pattern::Any(_) => "Any"@,
        Pattern::Maybe(_) => "Maybe"@,
        Pattern::Star(_) => "Star"@,
        Pattern::Plus(_) => "Plus"@,
        Pattern::Discard(_) => "Discard"@,
    }
}

/// The outline of `p` from `depth` on: one line for `p`, then the outlines
/// of its parts in order, one level deeper.
pub open spec fn pattern_text(p: Pattern, depth: usize) -> Seq<char>
    decreases p, 0int,
{
    indent(depth) + label(p) + "\n"@ + match p {
        Pattern::Symbol(_) => Seq::empty(),
        Pattern::Token(_) => Seq::empty(),
        Pattern::Sequence(parts) => parts_text(parts, 0, deeper(depth)),
        Pattern::Any(parts) => parts_text(parts, 0, deeper(depth)),
        Pattern::Maybe(q) => pattern_text(*q, deeper(depth)),
        Pattern::Star(q) => pattern_text(*q, deeper(depth)),
        Pattern::Plus(q) => pattern_text(*q, deeper(depth)),
        Pattern::Discard(q) => pattern_text(*q, deeper(depth)),
    }
}

/// The outlines of the parts from the `k`-th on, one after the other.
pub open spec fn parts_text(parts: Seq<Pattern>, k: int, depth: usize) -> Seq<char>
    decreases parts, parts.len() - k,
{
    if k < 0 || k >= parts.len() {
        Seq::empty()
    } else {
        pattern_text(parts[k], depth) + parts_text(parts, k + 1, depth)
    }
}

/// The text of a rule: a line of three dashes, then the outline of its
/// pattern.
pub open spec fn rule_text(p: Pattern) -> Seq<char> {
    "---\n"@ + pattern_text(p, 0)
}

/// The outlines of the patterns that are waiting, last first, each at its
/// own depth.
pub open spec fn waiting_text(pats: Seq<Pattern>, queue: Seq<(usize, usize)>) -> Seq<char>
    decreases pats.len(),
{
    if pats.len() == 0 {
        Seq::empty()
    } else {
        pattern_text(pats.last(), queue.last().1) + waiting_text(
            pats.drop_last(),
            queue.drop_last(),
        )
    }
}

proof fn lemma_waiting_push(pats: Seq<Pattern>, queue: Seq<(usize, usize)>, p: Pattern, id: usize, depth: usize)
    ensures
        waiting_text(pats.push(p), queue.push((id, depth))) == pattern_text(p, depth)
            + waiting_text(pats, queue),
{
    assert(pats.push(p).drop_last() =~= pats);
    assert(queue.push((id, depth)).drop_last() =~= queue);
}

/// Each waiting block unfolds to the pattern that waits with it.
pub open spec fn waiting_unfold(rule: &Rule, pats: Seq<Pattern>, queue: Seq<(usize, usize)>) -> bool {
    &&& pats.len() == queue.len()
    &&& forall|i: int|
        0 <= i < pats.len() ==> unfolds_to(rule.arena(), (#[trigger] queue[i]).0 as int, pats[i])
}

/// Append the line of a block, without its indentation.
fn push_label(buffer: &mut String, block: &Block, Ghost(p): Ghost<Pattern>)
    requires
        match block@ {
            crate::parser::meta_parse_rule::BlockView::Symbol(s) => p == Pattern::Symbol(s),
            crate::parser::meta_parse_rule::BlockView::Token(l) => p == Pattern::Token(l),
            crate::parser::meta_parse_rule::BlockView::Sequence(_) => p is Sequence,
            crate::parser::meta_parse_rule::BlockView::Any(_) => p is Any,
            crate::parser::meta_parse_rule::BlockView::Maybe(_) => p is Maybe,
            crate::parser::meta_parse_rule::BlockView::Star(_) => p is Star,
            crate::parser::meta_parse_rule::BlockView::Plus(_) => p is Plus,
            crate::parser::meta_parse_rule::BlockView::Discard(_) => p is Discard,
        },
    ensures
        final(buffer)@ == old(buffer)@ + label(p) + "\n"@,
{
    match block {
        Block::Symbol(sym) => {
            buffer.append("Symbol<");
            buffer.append(sym.name());
            buffer.append(">");
            assert(buffer@ =~= old(buffer)@ + label(p));
        },
        Block::Token(tok) => {
            buffer.append("Token<");
            buffer.append(tok.name());
            buffer.append(">");
            assert(buffer@ =~= old(buffer)@ + label(p));
        },
        Block::_Sequence(_) => buffer.append("Sequence"),
        Block::_Any(_) => buffer.append("Any"),
        Block::_Maybe(_) => buffer.append("Maybe"),
        Block::_Star(_) => buffer.append("Star"),
        Block::_Plus(_) => buffer.append("Plus"),
        Block::_Discard(_) => buffer.append("Discard"),
    }
    buffer.append("\n");
}

/// Put the blocks of `children` on the queue, last first, so that the
/// first is the next to be taken off.
fn push_parts(
    rule: &Rule,
    queue: &mut Vec<(usize, usize)>,
    children: &Vec<usize>,
    depth: usize,
    Ghost(pats): Ghost<Seq<Pattern>>,
    Ghost(parts): Ghost<Seq<Pattern>>,
) -> (grown: Ghost<Seq<Pattern>>)
    requires
        waiting_unfold(rule, pats, old(queue)@),
        children@.len() == parts.len(),
        forall|k: int|
            0 <= k < parts.len() ==> unfolds_to(
                rule.arena(),
                #[trigger] children@[k] as int,
                parts[k],
            ),
    ensures
        waiting_unfold(rule, grown@, final(queue)@),
        waiting_text(grown@, final(queue)@) == parts_text(parts, 0, depth) + waiting_text(
            pats,
            old(queue)@,
        ),
{
    let ghost mut grown = pats;
    let mut k: usize = children.len();
    while k > 0
        invariant
            k <= children@.len(),
            children@.len() == parts.len(),
            forall|i: int|
                0 <= i < parts.len() ==> unfolds_to(
                    rule.arena(),
                    #[trigger] children@[i] as int,
                    parts[i],
                ),
            waiting_unfold(rule, grown, queue@),
            waiting_text(grown, queue@) == parts_text(parts, k as int, depth) + waiting_text(
                pats,
                old(queue)@,
            ),
        decreases k,
    {
        k -= 1;
        proof {
            lemma_waiting_push(grown, queue@, parts[k as int], children@[k as int], depth);
            assert(parts_text(parts, k as int, depth) + waiting_text(pats, old(queue)@)
                =~= pattern_text(parts[k as int], depth) + (parts_text(parts, k + 1, depth)
                + waiting_text(pats, old(queue)@)));
        }
        queue.push((children[k], depth));
        proof {
            grown = grown.push(parts[k as int]);
        }
    }
    Ghost(grown)
}

impl Rule {
    /// Convert this rule into a string with YAML formatting: a line of
    /// three dashes, then the outline of the rule's pattern.
    pub fn to_string(&self) -> (r: Result<String, Error>)
        requires
            self.well_formed(),
        ensures
            r matches Ok(text) && text@ == rule_text(self@),
    {
        proof {
            self.lemma_pattern(choose|p: Pattern| unfolds_to(self.arena(), self.root as int, p));
            reveal_strlit("\n");
        }
        let mut buffer = "---\n".to_owned();
        let mut queue: Vec<(usize, usize)> = Vec::new();
        queue.push((self.root, 0));
        let ghost mut pats: Seq<Pattern> = seq![self@];
        proof {
            lemma_waiting_push(Seq::empty(), Seq::empty(), self@, self.root, 0);
            assert(queue@ =~= Seq::<(usize, usize)>::empty().push((self.root, 0usize)));
            assert(pats =~= Seq::<Pattern>::empty().push(self@));
            assert(buffer@ + waiting_text(pats, queue@) =~= rule_text(self@));
        }
        while queue.len() > 0
            invariant
                "\n"@.len() == 1,
                waiting_unfold(self, pats, queue@),
                buffer@ + waiting_text(pats, queue@) == rule_text(self@),
            decreases waiting_text(pats, queue@).len(),
        {
            let ghost before = buffer@;
            let ghost waiting = waiting_text(pats, queue@);
            let ghost p = pats.last();
            let top = queue.pop().unwrap();
            let node_id = top.0;
            let depth = top.1;
            proof {
                pats = pats.drop_last();
                assert(unfolds_to(self.arena(), node_id as int, p));
                assert(self.arena()[node_id as int] == self.blocks@[node_id as int]@);
            }
            let ghost rest = waiting_text(pats, queue@);
            let node = &self.blocks[node_id];
            push_indent(&mut buffer, depth);
            push_label(&mut buffer, node, Ghost(p));
            let ghost line = indent(depth) + label(p) + "\n"@;
            assert(buffer@ =~= before + line);
            let next = step_in(depth);
            match node {
                Block::Symbol(_) => {},
                Block::Token(_) => {},
                Block::_Sequence(children) => {
                    let grown = push_parts(
                        self,
                        &mut queue,
                        children,
                        next,
                        Ghost(pats),
                        Ghost(p->Sequence_0),
                    );
                    proof {
                        pats = grown@;
                    }
                },
                Block::_Any(children) => {
                    let grown = push_parts(
                        self,
                        &mut queue,
                        children,
                        next,
                        Ghost(pats),
                        Ghost(p->Any_0),
                    );
                    proof {
                        pats = grown@;
                    }
                },
                Block::_Maybe(child) => {
                    proof {
                        lemma_waiting_push(pats, queue@, *p->Maybe_0, *child, next);
                        pats = pats.push(*p->Maybe_0);
                    }
                    queue.push((*child, next));
                },
                Block::_Star(child) => {
                    proof {
                        lemma_waiting_push(pats, queue@, *p->Star_0, *child, next);
                        pats = pats.push(*p->Star_0);
                    }
                    queue.push((*child, next));
                },
                Block::_Plus(child) => {
                    proof {
                        lemma_waiting_push(pats, queue@, *p->Plus_0, *child, next);
                        pats = pats.push(*p->Plus_0);
                    }
                    queue.push((*child, next));
                },
                Block::_Discard(child) => {
                    proof {
                        lemma_waiting_push(pats, queue@, *p->Discard_0, *child, next);
                        pats = pats.push(*p->Discard_0);
                    }
                    queue.push((*child, next));
                },
            }
            proof {
                assert(waiting == pattern_text(p, depth) + rest);
                assert(pattern_text(p, depth) + rest =~= line + waiting_text(pats, queue@));
                assert(buffer@ + waiting_text(pats, queue@) =~= before + waiting);
            }
        }
        assert(buffer@ =~= buffer@ + waiting_text(pats, queue@));
        Ok(buffer)
    }
}

} // verus!
