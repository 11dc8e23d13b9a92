use vstd::prelude::*;

use crate::context::context_manager::ContextManager;
use crate::context::data_types::CompositeTypeDef;
use crate::context::data_types::CompositeView;
use crate::context::data_types::DataTypeView;
use crate::types::errors::Error;

verus! {

/// The type `Base`: no fields, no base types.
pub open spec fn base_type() -> CompositeView {
    CompositeView { name: "Base"@, fields: Seq::empty(), extends: Seq::empty() }
}

/// Add the type `Base` to the active scope.
pub(crate) fn add_base(ctx_man: &mut ContextManager) -> (r: Result<(), Error>)
    requires
        old(ctx_man).well_formed(),
    ensures
        r is Ok,
        final(ctx_man).well_formed(),
        final(ctx_man).types() == old(ctx_man).types().push(
            DataTypeView::CompositeType(base_type()),
        ),
        forall|name: Seq<char>|
            #[trigger] final(ctx_man).type_id_of(name) == if name == "Base"@ {
                Some(old(ctx_man).types().len() as usize)
            } else {
                old(ctx_man).type_id_of(name)
            },
{
    let base = CompositeTypeDef {
        name: "Base".to_owned(),
        fields: Vec::new(),
        extends: Vec::new(),
    };
    assert(base@.fields =~= Seq::empty());
    ctx_man.add_data_type(base);
    Ok(())
}

} // verus!
