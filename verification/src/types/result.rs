use vstd::prelude::*;

use crate::context::context_manager::ContextManager;
use crate::context::data_types::CompositeTypeDef;
use crate::context::data_types::CompositeView;
use crate::context::data_types::DataType;
use crate::context::data_types::DataTypeView;
use crate::context::errors::ErrorView as ContextErrorView;
use crate::types::errors::Error;
use crate::types::errors::ErrorView;

verus! {

/// The type `Result` of what an execution leaves: its output, its errors
/// and the two together, each of the type `string`.
pub open spec fn result_type(string: usize) -> CompositeView {
    CompositeView {
        name: "Result"@,
        fields: seq![("out"@, string), ("err"@, string), ("both"@, string)],
        extends: Seq::empty(),
    }
}

/// The error that the type `String` is not known.
pub open spec fn string_missing() -> ErrorView {
    ErrorView::EggContextError(ContextErrorView::ContextManagerMissingRequiredDataTypeID("String"@))
}

/// The id of the type `String`.
fn string_id(ctx_man: &ContextManager) -> (r: Result<usize, Error>)
    requires
        ctx_man.well_formed(),
    ensures
        match r {
            Ok(id) => ctx_man.type_id_of("String"@) == Some(id),
            Err(e) => ctx_man.type_id_of("String"@) is None && e@ == string_missing(),
        },
{
    match ctx_man.get_required_data_type_id(&DataType::String.get_name()) {
        Ok(id) => Ok(id),
        Err(e) => Err(Error::EggContextError(e)),
    }
}

/// Add the type `Result` to the active scope. The type `String` must be
/// known there; nothing is added if it is not.
pub(crate) fn add_result(ctx_man: &mut ContextManager) -> (r: Result<(), Error>)
    requires
        old(ctx_man).well_formed(),
    ensures
        final(ctx_man).well_formed(),
        match old(ctx_man).type_id_of("String"@) {
            Some(string) => {
                &&& r is Ok
                &&& final(ctx_man).types() == old(ctx_man).types().push(
                    DataTypeView::CompositeType(result_type(string)),
                )
                &&& forall|name: Seq<char>|
                    #[trigger] final(ctx_man).type_id_of(name) == if name == "Result"@ {
                        Some(old(ctx_man).types().len() as usize)
                    } else {
                        old(ctx_man).type_id_of(name)
                    }
            },
            None => {
                &&& r matches Err(e) && e@ == string_missing()
                &&& final(ctx_man).types() == old(ctx_man).types()
                &&& forall|name: Seq<char>|
                    #[trigger] final(ctx_man).type_id_of(name) == old(ctx_man).type_id_of(name)
            },
        },
{
    let out = match string_id(ctx_man) {
        Ok(id) => id,
        Err(e) => {
            return Err(e);
        },
    };
    let err = match string_id(ctx_man) {
        Ok(id) => id,
        Err(e) => {
            return Err(e);
        },
    };
    let both = match string_id(ctx_man) {
        Ok(id) => id,
        Err(e) => {
            return Err(e);
        },
    };
    let mut fields: Vec<(String, usize)> = Vec::new();
    fields.push(("out".to_owned(), out));
    fields.push(("err".to_owned(), err));
    fields.push(("both".to_owned(), both));
    let result = CompositeTypeDef { name: "Result".to_owned(), fields, extends: Vec::new() };
    assert(result@.fields =~= result_type(out).fields);
    ctx_man.add_data_type(result);
    Ok(())
}

} // verus!
