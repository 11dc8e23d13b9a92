use vstd::prelude::*;

use crate::context::context::entries_of;
use crate::context::context::inserted;
use crate::context::context::lookup;
use crate::context::context::table_insert;
use crate::context::context::Entries;
use crate::context::context_manager::ContextManager;
use crate::context::errors::Error;
use crate::context::errors::ErrorView;

verus! {

/// A type made of named fields, with the types that it extends.
#[derive(Debug)]
pub struct CompositeTypeDef {
    pub name: String,
    pub fields: Vec<(String, usize)>,
    pub extends: Vec<usize>,
}

/// The mathematical content of a [`CompositeTypeDef`].
pub struct CompositeView {
    pub name: Seq<char>,
    pub fields: Entries,
    pub extends: Seq<usize>,
}

impl View for CompositeTypeDef {
    type V = CompositeView;

    open spec fn view(&self) -> CompositeView {
        CompositeView {
            name: self.name@,
            fields: crate::context::context::entries_of(self.fields@),
            extends: self.extends@,
        }
    }
}

/// A data type: the one primitive type, or a composite type.
#[derive(Debug)]
pub enum DataType {
    String,
    CompositeType(CompositeTypeDef),
}

/// The mathematical content of a [`DataType`].
pub enum DataTypeView {
    String,
    CompositeType(CompositeView),
}

impl View for DataType {
    type V = DataTypeView;

    open spec fn view(&self) -> DataTypeView {
        match self {
            DataType::String => DataTypeView::String,
            DataType::CompositeType(ctd) => DataTypeView::CompositeType(ctd@),
        }
    }
}

/// The name of a data type: `String`, or the name of the composite.
pub open spec fn name_of_type(data_type: DataTypeView) -> Seq<char> {
    match data_type {
        DataTypeView::String => "String"@,
        DataTypeView::CompositeType(ctd) => ctd.name,
    }
}

impl DataType {
    /// The name of the data type.
    pub fn get_name(&self) -> (r: String)
        ensures
            r@ == name_of_type(self@),
    {
        match self {
            DataType::CompositeType(ctd) => ctd.name.clone(),
            DataType::String => "String".to_owned(),
        }
    }
}

/// The table made of `pairs` from the `k`-th on, put into `acc` one after
/// the other: of two pairs with one name the later counts.
pub open spec fn collected(pairs: Entries, k: int, acc: Entries) -> Entries
    decreases pairs.len() - k,
{
    if k < 0 || k >= pairs.len() {
        acc
    } else {
        collected(pairs, k + 1, inserted(acc, pairs[k].0, pairs[k].1))
    }
}

/// The name of the data type `id`, or the error that there is none.
pub open spec fn name_by_id(types: Seq<DataTypeView>, id: usize) -> Result<Seq<char>, ErrorView> {
    if id < types.len() {
        Ok(name_of_type(types[id as int]))
    } else {
        Err(ErrorView::ContextManagerInvalidDataTypeID(id))
    }
}

/// What reports that the type `name` has a field with the two types `a`
/// and `b`: the names of the two, or that one of them does not exist.
pub open spec fn conflict(types: Seq<DataTypeView>, name: Seq<char>, a: usize, b: usize) -> ErrorView {
    match name_by_id(types, a) {
        Err(e) => e,
        Ok(first) => match name_by_id(types, b) {
            Err(e) => e,
            Ok(second) => ErrorView::DatatypeConflictingFieldDefinitions {
                data_type: name,
                field_type_a: first,
                field_type_b: second,
            },
        },
    }
}

/// `acc` with the fields of one base type from the `k`-th on. A field that
/// `acc` has with another type is a conflict.
pub open spec fn inherited(
    types: Seq<DataTypeView>,
    name: Seq<char>,
    acc: Entries,
    fields: Entries,
    k: int,
) -> Result<Entries, ErrorView>
    decreases fields.len() - k,
{
    if k < 0 || k >= fields.len() {
        Ok(acc)
    } else {
        match lookup(acc, fields[k].0) {
            Some(old) => if old != fields[k].1 {
                Err(conflict(types, name, old, fields[k].1))
            } else {
                inherited(types, name, inserted(acc, fields[k].0, fields[k].1), fields, k + 1)
            },
            None => inherited(
                types,
                name,
                inserted(acc, fields[k].0, fields[k].1),
                fields,
                k + 1,
            ),
        }
    }
}

/// `acc` with the fields of the base types from the `b`-th on. Each base
/// must exist and be a composite type.
pub open spec fn inherited_all(
    types: Seq<DataTypeView>,
    name: Seq<char>,
    acc: Entries,
    bases: Seq<usize>,
    b: int,
) -> Result<Entries, ErrorView>
    decreases bases.len() - b,
{
    if b < 0 || b >= bases.len() {
        Ok(acc)
    } else if bases[b] >= types.len() {
        Err(ErrorView::ContextManagerInvalidDataTypeID(bases[b]))
    } else {
        match types[bases[b] as int] {
            DataTypeView::CompositeType(ctd) => match inherited(types, name, acc, ctd.fields, 0) {
                Err(e) => Err(e),
                Ok(next) => inherited_all(types, name, next, bases, b + 1),
            },
            DataTypeView::String => Err(
                ErrorView::DataTypeCannotExtendPrimitiveType {
                    data_type: name,
                    extends: "String"@,
                },
            ),
        }
    }
}

/// The fields of a new composite type: its own, then those of the types
/// that it extends.
pub open spec fn computed_fields(
    types: Seq<DataTypeView>,
    name: Seq<char>,
    fields: Entries,
    extends: Seq<usize>,
) -> Result<Entries, ErrorView> {
    inherited_all(types, name, collected(fields, 0, Seq::empty()), extends, 0)
}

/// `acc` with those of `more` from the `k`-th on that it does not hold.
pub open spec fn united(acc: Seq<usize>, more: Seq<usize>, k: int) -> Seq<usize>
    decreases more.len() - k,
{
    if k < 0 || k >= more.len() {
        acc
    } else if acc.contains(more[k]) {
        united(acc, more, k + 1)
    } else {
        united(acc.push(more[k]), more, k + 1)
    }
}

/// `acc` with what the types of `extends` from the `k`-th on extend
/// themselves. Each of them must exist and be a composite type.
pub open spec fn with_ancestors(
    types: Seq<DataTypeView>,
    name: Seq<char>,
    extends: Seq<usize>,
    acc: Seq<usize>,
    k: int,
) -> Result<Seq<usize>, ErrorView>
    decreases extends.len() - k,
{
    if k < 0 || k >= extends.len() {
        Ok(acc)
    } else if extends[k] >= types.len() {
        Err(ErrorView::ContextManagerInvalidDataTypeID(extends[k]))
    } else {
        match types[extends[k] as int] {
            DataTypeView::CompositeType(ctd) => with_ancestors(
                types,
                name,
                extends,
                united(acc, ctd.extends, 0),
                k + 1,
            ),
            DataTypeView::String => Err(
                ErrorView::DataTypeCannotExtendPrimitiveType {
                    data_type: name,
                    extends: "String"@,
                },
            ),
        }
    }
}

/// The types that a new composite type extends, mediately or not.
pub open spec fn computed_parents(
    types: Seq<DataTypeView>,
    name: Seq<char>,
    extends: Seq<usize>,
) -> Result<Seq<usize>, ErrorView> {
    with_ancestors(types, name, extends, extends, 0)
}

/// The composite type that is made of a name, fields and base types.
pub open spec fn composed(
    types: Seq<DataTypeView>,
    name: Seq<char>,
    fields: Entries,
    extends: Seq<usize>,
) -> Result<CompositeView, ErrorView> {
    match computed_fields(types, name, fields, extends) {
        Err(e) => Err(e),
        Ok(all_fields) => match computed_parents(types, name, extends) {
            Err(e) => Err(e),
            Ok(all_parents) => Ok(
                CompositeView { name, fields: all_fields, extends: all_parents },
            ),
        },
    }
}

/// Whether `id` is among `ids`.
fn holds(ids: &Vec<usize>, id: usize) -> (r: bool)
    ensures
        r == ids@.contains(id),
{
    let mut i: usize = 0;
    while i < ids.len()
        invariant
            i <= ids@.len(),
            forall|k: int| 0 <= k < i ==> ids@[k] != id,
        decreases ids@.len() - i,
    {
        if ids[i] == id {
            return true;
        }
        i += 1;
    }
    false
}

impl CompositeTypeDef {
    /// Make a composite type of a name, its own fields and the types that
    /// it extends. It has the fields of those types too, and extends what
    /// they extend.
    pub fn new_composite(
        ctx_man: &ContextManager,
        name: String,
        fields: Vec<(String, usize)>,
        extends: Vec<usize>,
    ) -> (r: Result<Self, Error>)
        ensures
            match r {
                Ok(made) => composed(ctx_man.types(), name@, entries_of(fields@), extends@) == Ok::<
                    CompositeView,
                    ErrorView,
                >(made@),
                Err(e) => composed(ctx_man.types(), name@, entries_of(fields@), extends@) == Err::<
                    CompositeView,
                    ErrorView,
                >(e@),
            },
    {
        let all_fields = match Self::compute_fields(ctx_man, &name, fields, &extends) {
            Ok(f) => f,
            Err(e) => {
                return Err(e);
            },
        };
        let all_parents = match Self::compute_parents(ctx_man, &name, extends) {
            Ok(p) => p,
            Err(e) => {
                return Err(e);
            },
        };
        Ok(Self { fields: all_fields, extends: all_parents, name })
    }

    fn compute_fields(
        ctx_man: &ContextManager,
        name: &String,
        fields: Vec<(String, usize)>,
        extends: &Vec<usize>,
    ) -> (r: Result<Vec<(String, usize)>, Error>)
        ensures
            match r {
                Ok(all) => computed_fields(ctx_man.types(), name@, entries_of(fields@), extends@)
                    == Ok::<Entries, ErrorView>(entries_of(all@)),
                Err(e) => computed_fields(ctx_man.types(), name@, entries_of(fields@), extends@)
                    == Err::<Entries, ErrorView>(e@),
            },
    {
        let ghost types = ctx_man.types();
        let ghost own = entries_of(fields@);
        let mut computed: Vec<(String, usize)> = Vec::new();
        let mut k: usize = 0;
        assert(entries_of(computed@) =~= Seq::empty());
        while k < fields.len()
            invariant
                k <= fields@.len(),
                own == entries_of(fields@),
                collected(own, 0, Seq::empty()) == collected(own, k as int, entries_of(computed@)),
            decreases fields@.len() - k,
        {
            assert(own[k as int] == (fields@[k as int].0@, fields@[k as int].1));
            table_insert(&mut computed, fields[k].0.clone(), fields[k].1);
            k += 1;
        }
        let mut b: usize = 0;
        while b < extends.len()
            invariant
                b <= extends@.len(),
                types == ctx_man.types(),
                own == entries_of(fields@),
                computed_fields(types, name@, own, extends@) == inherited_all(
                    types,
                    name@,
                    entries_of(computed@),
                    extends@,
                    b as int,
                ),
            decreases extends@.len() - b,
        {
            let base = match ctx_man.get_data_type(extends[b]) {
                Ok(found) => found,
                Err(e) => {
                    return Err(e);
                },
            };
            match base {
                DataType::CompositeType(ctd) => {
                    let ghost theirs = entries_of(ctd.fields@);
                    let ghost start = entries_of(computed@);
                    let mut f: usize = 0;
                    while f < ctd.fields.len()
                        invariant
                            f <= ctd.fields@.len(),
                            types == ctx_man.types(),
                            theirs == entries_of(ctd.fields@),
                            own == entries_of(fields@),
                            b < extends@.len(),
                            extends@[b as int] < types.len(),
                            types[extends@[b as int] as int] == DataTypeView::CompositeType(ctd@),
                            computed_fields(types, name@, own, extends@) == inherited_all(
                                types,
                                name@,
                                start,
                                extends@,
                                b as int,
                            ),
                            inherited(types, name@, start, theirs, 0) == inherited(
                                types,
                                name@,
                                entries_of(computed@),
                                theirs,
                                f as int,
                            ),
                        decreases ctd.fields@.len() - f,
                    {
                        assert(theirs[f as int] == (ctd.fields@[f as int].0@, ctd.fields@[f as int].1));
                        let field_type = ctd.fields[f].1;
                        let before = table_insert(
                            &mut computed,
                            ctd.fields[f].0.clone(),
                            field_type,
                        );
                        if let Some(old_value) = before {
                            if old_value != field_type {
                                let first = match ctx_man.get_data_type(old_value) {
                                    Ok(found) => found.get_name(),
                                    Err(e) => {
                                        return Err(e);
                                    },
                                };
                                let second = match ctx_man.get_data_type(field_type) {
                                    Ok(found) => found.get_name(),
                                    Err(e) => {
                                        return Err(e);
                                    },
                                };
                                return Err(
                                    Error::DatatypeConflictingFieldDefinitions {
                                        data_type: name.clone(),
                                        field_type_a: first,
                                        field_type_b: second,
                                    },
                                );
                            }
                        }
                        f += 1;
                    }
                },
                DataType::String => {
                    return Err(
                        Error::DataTypeCannotExtendPrimitiveType {
                            data_type: name.clone(),
                            extends: base.get_name(),
                        },
                    );
                },
            }
            b += 1;
        }
        Ok(computed)
    }

    fn compute_parents(ctx_man: &ContextManager, name: &String, extends: Vec<usize>) -> (r: Result<
        Vec<usize>,
        Error,
    >)
        ensures
            match r {
                Ok(all) => computed_parents(ctx_man.types(), name@, extends@) == Ok::<
                    Seq<usize>,
                    ErrorView,
                >(all@),
                Err(e) => computed_parents(ctx_man.types(), name@, extends@) == Err::<
                    Seq<usize>,
                    ErrorView,
                >(e@),
            },
    {
        let ghost types = ctx_man.types();
        let mut all: Vec<usize> = Vec::new();
        let mut i: usize = 0;
        while i < extends.len()
            invariant
                i <= extends@.len(),
                all@ == extends@.subrange(0, i as int),
            decreases extends@.len() - i,
        {
            all.push(extends[i]);
            assert(all@ =~= extends@.subrange(0, i + 1));
            i += 1;
        }
        assert(all@ =~= extends@);
        let mut k: usize = 0;
        while k < extends.len()
            invariant
                k <= extends@.len(),
                types == ctx_man.types(),
                computed_parents(types, name@, extends@) == with_ancestors(
                    types,
                    name@,
                    extends@,
                    all@,
                    k as int,
                ),
            decreases extends@.len() - k,
        {
            let ancestor = match ctx_man.get_data_type(extends[k]) {
                Ok(found) => found,
                Err(e) => {
                    return Err(e);
                },
            };
            match ancestor {
                DataType::CompositeType(ctd) => {
                    let ghost start = all@;
                    let mut m: usize = 0;
                    while m < ctd.extends.len()
                        invariant
                            m <= ctd.extends@.len(),
                            united(start, ctd.extends@, 0) == united(all@, ctd.extends@, m as int),
                        decreases ctd.extends@.len() - m,
                    {
                        if !holds(&all, ctd.extends[m]) {
                            all.push(ctd.extends[m]);
                        }
                        m += 1;
                    }
                },
                DataType::String => {
                    return Err(
                        Error::DataTypeCannotExtendPrimitiveType {
                            data_type: name.clone(),
                            extends: ancestor.get_name(),
                        },
                    );
                },
            }
            k += 1;
        }
        Ok(all)
    }
}

} // verus!
