use vstd::prelude::*;

verus! {

/// `ids`, each moved up by `offset`: what the positions of an arena become
/// when `offset` entries are put in front of it.
pub open spec fn shift_ids(ids: Seq<usize>, offset: int) -> Seq<usize> {
    Seq::new(ids.len(), |k: int| (ids[k] + offset) as usize)
}

/// A copy of `ids` with `offset` added to each.
pub fn shifted(ids: &Vec<usize>, offset: usize) -> (r: Vec<usize>)
    requires
        forall|k: int| 0 <= k < ids@.len() ==> ids@[k] + offset <= usize::MAX,
    ensures
        r@ == shift_ids(ids@, offset as int),
{
    let mut r: Vec<usize> = Vec::new();
    let mut k: usize = 0;
    while k < ids.len()
        invariant
            k <= ids@.len(),
            r@.len() == k,
            forall|i: int| 0 <= i < ids@.len() ==> ids@[i] + offset <= usize::MAX,
            forall|i: int| 0 <= i < k ==> r@[i] == (ids@[i] + offset) as usize,
        decreases ids@.len() - k,
    {
        r.push(ids[k] + offset);
        k += 1;
    }
    assert(r@ =~= shift_ids(ids@, offset as int));
    r
}

} // verus!
