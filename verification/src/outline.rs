use vstd::prelude::*;
use vstd::string::StringExecFns;

verus! {

/// `n` spaces.
pub open spec fn spaces(n: nat) -> Seq<char> {
    Seq::new(n, |i: int| ' ')
}

/// What starts the line of an entry `depth` levels deep in an outline: two
/// spaces for each level, then a dash and a space.
pub open spec fn indent(depth: usize) -> Seq<char> {
    spaces(2 * (depth as nat)) + "- "@
}

/// The level below `depth`. The levels end at `usize::MAX`.
pub open spec fn deeper(depth: usize) -> usize {
    if depth < usize::MAX {
        (depth + 1) as usize
    } else {
        depth
    }
}

/// The level below `depth`.
pub fn step_in(depth: usize) -> (r: usize)
    ensures
        r == deeper(depth),
{
    if depth < usize::MAX {
        depth + 1
    } else {
        depth
    }
}

/// Append `2 * depth` spaces to `buffer`.
pub fn push_spaces(buffer: &mut String, depth: usize)
    ensures
        final(buffer)@ == old(buffer)@ + spaces(2 * (depth as nat)),
{
    let mut level: usize = 0;
    proof {
        reveal_strlit("  ");
        assert(buffer@ =~= old(buffer)@ + spaces(0));
    }
    while level < depth
        invariant
            level <= depth,
            "  "@ == seq![' ', ' '],
            buffer@ == old(buffer)@ + spaces(2 * (level as nat)),
        decreases depth - level,
    {
        let ghost before = buffer@;
        buffer.append("  ");
        level += 1;
        assert(buffer@ =~= old(buffer)@ + spaces(2 * (level as nat)));
    }
}

/// Append the start of the line of an entry `depth` levels deep.
pub fn push_indent(buffer: &mut String, depth: usize)
    ensures
        final(buffer)@ == old(buffer)@ + indent(depth),
{
    push_spaces(buffer, depth);
    buffer.append("- ");
    assert(buffer@ =~= old(buffer)@ + indent(depth));
}

} // verus!
