use vstd::prelude::*;

verus! {

/// A table from names to ids, as a list. Where a name stands twice, the
/// first entry counts.
pub type Entries = Seq<(Seq<char>, usize)>;

/// The entries of an executable table.
pub open spec fn entries_of(table: Seq<(String, usize)>) -> Entries {
    Seq::new(table.len(), |i: int| (table[i].0@, table[i].1))
}

/// The position of the first entry for `name` from `from` on.
pub open spec fn find_from(entries: Entries, name: Seq<char>, from: int) -> Option<int>
    decreases entries.len() - from,
{
    if from < 0 || from >= entries.len() {
        None
    } else if entries[from].0 == name {
        Some(from)
    } else {
        find_from(entries, name, from + 1)
    }
}

/// The id that the table gives to `name`, if any.
pub open spec fn lookup(entries: Entries, name: Seq<char>) -> Option<usize> {
    match find_from(entries, name, 0) {
        Some(i) => Some(entries[i].1),
        None => None,
    }
}

/// The table after `name` was given `id`: the entry for the name is
/// replaced where it stood, or a new entry is added at the end.
pub open spec fn inserted(entries: Entries, name: Seq<char>, id: usize) -> Entries {
    match find_from(entries, name, 0) {
        Some(i) => entries.update(i, (name, id)),
        None => entries.push((name, id)),
    }
}

proof fn lemma_find_bounds(entries: Entries, name: Seq<char>, from: int)
    requires
        0 <= from,
    ensures
        match find_from(entries, name, from) {
            Some(i) => from <= i < entries.len() && entries[i].0 == name && forall|k: int|
                from <= k < i ==> (#[trigger] entries[k]).0 != name,
            None => forall|k: int| from <= k < entries.len() ==> (#[trigger] entries[k]).0 != name,
        },
    decreases entries.len() - from,
{
    if from < entries.len() && entries[from].0 != name {
        lemma_find_bounds(entries, name, from + 1);
    }
}

proof fn lemma_find_is_first(entries: Entries, name: Seq<char>, from: int, i: int)
    requires
        0 <= from <= i < entries.len(),
        entries[i].0 == name,
        forall|k: int| from <= k < i ==> (#[trigger] entries[k]).0 != name,
    ensures
        find_from(entries, name, from) == Some(i),
    decreases i - from,
{
    if from < i {
        lemma_find_is_first(entries, name, from + 1, i);
    }
}

proof fn lemma_find_none(entries: Entries, name: Seq<char>, from: int)
    requires
        0 <= from,
        forall|k: int| from <= k < entries.len() ==> (#[trigger] entries[k]).0 != name,
    ensures
        find_from(entries, name, from) is None,
    decreases entries.len() - from,
{
    if from < entries.len() {
        lemma_find_none(entries, name, from + 1);
    }
}

/// After `name` was given `id`, the table gives `id` to `name` and to every
/// other name what it gave before.
pub proof fn lemma_lookup_inserted(entries: Entries, name: Seq<char>, id: usize, other: Seq<char>)
    ensures
        lookup(inserted(entries, name, id), other) == if other == name {
            Some(id)
        } else {
            lookup(entries, other)
        },
{
    let after = inserted(entries, name, id);
    lemma_find_bounds(entries, name, 0);
    lemma_find_bounds(entries, other, 0);
    match find_from(entries, name, 0) {
        Some(i) => {
            if other == name {
                lemma_find_is_first(after, other, 0, i);
            } else {
                match find_from(entries, other, 0) {
                    Some(j) => {
                        lemma_find_is_first(after, other, 0, j);
                    },
                    None => {
                        lemma_find_none(after, other, 0);
                    },
                }
            }
        },
        None => {
            if other == name {
                lemma_find_is_first(after, other, 0, entries.len() as int);
            } else {
                match find_from(entries, other, 0) {
                    Some(j) => {
                        lemma_find_is_first(after, other, 0, j);
                    },
                    None => {
                        lemma_find_none(after, other, 0);
                    },
                }
            }
        },
    }
}

/// The position of the first entry for `name`.
pub fn table_find(table: &Vec<(String, usize)>, name: &String) -> (r: Option<usize>)
    ensures
        match r {
            Some(i) => find_from(entries_of(table@), name@, 0) == Some(i as int) && i
                < table@.len() && lookup(entries_of(table@), name@) == Some(table@[i as int].1),
            None => find_from(entries_of(table@), name@, 0) is None && lookup(
                entries_of(table@),
                name@,
            ) is None,
        },
{
    let mut i: usize = 0;
    while i < table.len()
        invariant
            i <= table@.len(),
            find_from(entries_of(table@), name@, 0) == find_from(
                entries_of(table@),
                name@,
                i as int,
            ),
        decreases table@.len() - i,
    {
        assert(entries_of(table@)[i as int].0 == table@[i as int].0@);
        if table[i].0 == *name {
            return Some(i);
        }
        i += 1;
    }
    None
}

/// Give `name` the id `id`, and return the id that it had.
pub fn table_insert(table: &mut Vec<(String, usize)>, name: String, id: usize) -> (r: Option<
    usize,
>)
    ensures
        entries_of(final(table)@) == inserted(entries_of(old(table)@), name@, id),
        r == lookup(entries_of(old(table)@), name@),
{
    match table_find(table, &name) {
        Some(i) => {
            let before = table[i].1;
            table[i].1 = id;
            proof {
                lemma_find_bounds(entries_of(old(table)@), name@, 0);
                assert(entries_of(table@) =~= inserted(entries_of(old(table)@), name@, id));
            }
            Some(before)
        },
        None => {
            table.push((name, id));
            assert(entries_of(table@) =~= inserted(entries_of(old(table)@), name@, id));
            None
        },
    }
}

/// One scope of names: the types that it names itself, and the scope
/// around it.
pub struct Context {
    pub(crate) types: Vec<(String, usize)>,
    pub(crate) parent: Option<usize>,
}

} // verus!
