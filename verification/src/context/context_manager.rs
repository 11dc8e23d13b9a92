use vstd::prelude::*;

use crate::context::context::entries_of;
use crate::context::context::lemma_lookup_inserted;
use crate::context::context::lookup;
use crate::context::context::table_find;
use crate::context::context::table_insert;
use crate::context::context::Context;
use crate::context::context::Entries;
use crate::context::data_types::CompositeTypeDef;
use crate::context::data_types::DataType;
use crate::context::data_types::DataTypeView;
use crate::context::errors::Error;
use crate::context::errors::ErrorView;

verus! {

/// The position of a scope among the scopes.
pub type ContextID = usize;

/// The position of a data type among the data types.
pub type TypeID = usize;

/// The mathematical content of a scope: its table and the scope around it.
pub struct Scope {
    pub types: Entries,
    pub parent: Option<usize>,
}

/// The id that `name` has in the scope `at`: what the scope's own table
/// gives it, else what it has in the scope around.
pub open spec fn resolve(scopes: Seq<Scope>, at: int, name: Seq<char>) -> Option<usize>
    decreases at,
{
    if at < 0 || at >= scopes.len() {
        None
    } else {
        match lookup(scopes[at].types, name) {
            Some(id) => Some(id),
            None => match scopes[at].parent {
                Some(p) => if p < at {
                    resolve(scopes, p as int, name)
                } else {
                    None
                },
                None => None,
            },
        }
    }
}

proof fn lemma_resolve_below(a: Seq<Scope>, b: Seq<Scope>, at: int, name: Seq<char>)
    requires
        at < a.len(),
        at < b.len(),
        forall|i: int| 0 <= i <= at ==> a[i] == b[i],
    ensures
        resolve(a, at, name) == resolve(b, at, name),
    decreases at,
{
    if at >= 0 {
        if lookup(a[at].types, name) is None {
            if let Some(p) = a[at].parent {
                if p < at {
                    lemma_resolve_below(a, b, p as int, name);
                }
            }
        }
    }
}

/// The data types of a run and the names that they go by, scope within
/// scope.
pub struct ContextManager {
    contexts: Vec<Context>,
    data_types: Vec<DataType>,
    active_context: ContextID,
}

impl ContextManager {
    /// The active scope exists, and each scope lies within an earlier one.
    pub closed spec fn well_formed(&self) -> bool {
        &&& self.active_context < self.contexts@.len()
        &&& forall|i: int|
            0 <= i < self.contexts@.len() ==> ((#[trigger] self.contexts@[i]).parent matches Some(
                p,
            ) ==> p < i)
    }

    /// The scopes, outermost first.
    pub closed spec fn scopes(&self) -> Seq<Scope> {
        Seq::new(
            self.contexts@.len(),
            |i: int|
                Scope {
                    types: entries_of(self.contexts@[i].types@),
                    parent: self.contexts@[i].parent,
                },
        )
    }

    /// The position of the active scope.
    pub closed spec fn active(&self) -> usize {
        self.active_context
    }

    /// The data types, each at the position that is its id.
    pub closed spec fn types(&self) -> Seq<DataTypeView> {
        Seq::new(self.data_types@.len(), |i: int| self.data_types@[i]@)
    }

    /// The id that `name` has in the active scope.
    pub open spec fn type_id_of(&self, name: Seq<char>) -> Option<TypeID> {
        resolve(self.scopes(), self.active() as int, name)
    }

    /// A manager that knows the type `String` alone, under id 0.
    pub fn new() -> (r: Self)
        ensures
            r.well_formed(),
            r.types() == seq![DataTypeView::String],
            forall|name: Seq<char>|
                #[trigger] r.type_id_of(name) == if name == "String"@ {
                    Some(0usize)
                } else {
                    None
                },
    {
        let mut types: Vec<(String, usize)> = Vec::new();
        let first = DataType::String;
        types.push((first.get_name(), 0));
        let mut contexts: Vec<Context> = Vec::new();
        contexts.push(Context { types, parent: None });
        let mut data_types: Vec<DataType> = Vec::new();
        data_types.push(first);
        let r = Self { contexts, data_types, active_context: 0 };
        proof {
            assert(r.types() =~= seq![DataTypeView::String]);
            assert forall|name: Seq<char>| #[trigger] r.type_id_of(name) == if name == "String"@ {
                Some(0usize)
            } else {
                None
            } by {
                let table = r.scopes()[0].types;
                assert(table =~= seq![("String"@, 0usize)]);
                crate::context::context::lemma_lookup_inserted(
                    Seq::empty(),
                    "String"@,
                    0,
                    name,
                );
                assert(crate::context::context::inserted(Seq::empty(), "String"@, 0) =~= table);
            }
        }
        r
    }

    /// Add a composite type. It gets the next id, and its name stands for
    /// it in the active scope from now on.
    pub fn add_data_type(&mut self, new_composite: CompositeTypeDef)
        requires
            old(self).well_formed(),
        ensures
            final(self).well_formed(),
            final(self).types() == old(self).types().push(
                DataTypeView::CompositeType(new_composite@),
            ),
            forall|name: Seq<char>|
                #[trigger] final(self).type_id_of(name) == if name == new_composite.name@ {
                    Some(old(self).types().len() as usize)
                } else {
                    old(self).type_id_of(name)
                },
    {
        let name = new_composite.name.clone();
        let position = self.data_types.len();
        let ghost before = self.scopes();
        self.data_types.push(DataType::CompositeType(new_composite));
        let active = self.active_context;
        table_insert(&mut self.contexts[active].types, name, position);
        proof {
            assert(self.types() =~= old(self).types().push(
                DataTypeView::CompositeType(new_composite@),
            ));
            let after = self.scopes();
            assert forall|i: int| 0 <= i < before.len() && i != active implies after[i]
                == before[i] by {}
            assert forall|name: Seq<char>| #[trigger] self.type_id_of(name) == if name
                == new_composite.name@ {
                Some(old(self).types().len() as usize)
            } else {
                old(self).type_id_of(name)
            } by {
                lemma_lookup_inserted(before[active as int].types, new_composite.name@, position, name);
                if let Some(p) = before[active as int].parent {
                    lemma_resolve_below(before, after, p as int, name);
                }
            }
        }
    }

    /// The data type with the given id.
    pub fn get_data_type(&self, data_type: TypeID) -> (r: Result<&DataType, Error>)
        ensures
            match r {
                Ok(found) => data_type < self.types().len() && found@
                    == self.types()[data_type as int],
                Err(e) => data_type >= self.types().len() && e@
                    == ErrorView::ContextManagerInvalidDataTypeID(data_type),
            },
    {
        if data_type < self.data_types.len() {
            Ok(&self.data_types[data_type])
        } else {
            Err(Error::ContextManagerInvalidDataTypeID(data_type))
        }
    }

    /// The id that `name` has in the active scope, if it has one there or
    /// in a scope around it.
    pub fn get_data_type_id(&self, name: &String) -> (r: Result<Option<TypeID>, Error>)
        requires
            self.well_formed(),
        ensures
            r matches Ok(found) && found == self.type_id_of(name@),
    {
        let mut current = self.active_context;
        loop
            invariant
                current < self.contexts@.len(),
                forall|i: int|
                    0 <= i < self.contexts@.len() ==> ((
                    #[trigger] self.contexts@[i]).parent matches Some(p) ==> p < i),
                self.type_id_of(name@) == resolve(self.scopes(), current as int, name@),
            decreases current,
        {
            let context = &self.contexts[current];
            assert(self.scopes()[current as int].types == entries_of(context.types@));
            match table_find(&context.types, name) {
                Some(i) => {
                    return Ok(Some(context.types[i].1));
                },
                None => {},
            }
            match context.parent {
                Some(p) => {
                    current = p;
                },
                None => {
                    return Ok(None);
                },
            }
        }
    }

    /// The id that `name` has in the active scope; it is an error for it
    /// to have none.
    pub fn get_required_data_type_id(&self, name: &String) -> (r: Result<TypeID, Error>)
        requires
            self.well_formed(),
        ensures
            match r {
                Ok(id) => self.type_id_of(name@) == Some(id),
                Err(e) => self.type_id_of(name@) is None && e@
                    == ErrorView::ContextManagerMissingRequiredDataTypeID(name@),
            },
    {
        match self.get_data_type_id(name) {
            Ok(Some(id)) => Ok(id),
            Ok(None) => Err(Error::ContextManagerMissingRequiredDataTypeID(name.clone())),
            Err(e) => Err(e),
        }
    }

    /// Open a scope within the active one and make it the active one: the
    /// new scope is the last, names nothing yet, and lies within the scope
    /// that was active. Every name keeps its id until the new scope gives
    /// it another.
    pub fn push_context(&mut self)
        requires
            old(self).well_formed(),
        ensures
            final(self).well_formed(),
            final(self).scopes() == old(self).scopes().push(
                Scope { types: Seq::empty(), parent: Some(old(self).active()) },
            ),
            final(self).active() == old(self).scopes().len(),
            final(self).types() == old(self).types(),
            forall|name: Seq<char>|
                #[trigger] final(self).type_id_of(name) == old(self).type_id_of(name),
    {
        let ghost before = self.scopes();
        let parent = self.active_context;
        self.contexts.push(Context { types: Vec::new(), parent: Some(parent) });
        self.active_context = self.contexts.len() - 1;
        proof {
            let after = self.scopes();
            assert(after[self.active_context as int].types =~= Seq::empty());
            assert(after =~= before.push(Scope { types: Seq::empty(), parent: Some(parent) }));
            assert forall|name: Seq<char>| #[trigger] self.type_id_of(name) == old(
                self,
            ).type_id_of(name) by {
                assert forall|i: int| 0 <= i < before.len() implies after[i] == before[i] by {}
                lemma_resolve_below(before, after, parent as int, name);
            }
        }
    }
}

impl Default for ContextManager {
    fn default() -> (r: Self)
        ensures
            r.well_formed(),
            r.types() == seq![DataTypeView::String],
    {
        Self::new()
    }
}

} // verus!
