mod base;
pub mod errors;
mod result;

use vstd::prelude::*;

use crate::context::context_manager::ContextManager;
use crate::context::data_types::DataTypeView;
use crate::types::base::base_type;
use crate::types::errors::Error;
use crate::types::result::result_type;
use crate::types::result::string_missing;

verus! {

/// Add the standard composite types to the active scope: `Base`, then
/// `Result`, which needs the type `String` to be known.
pub fn add_standard_composite_types(ctx_man: &mut ContextManager) -> (r: Result<(), Error>)
    requires
        old(ctx_man).well_formed(),
    ensures
        final(ctx_man).well_formed(),
        match old(ctx_man).type_id_of("String"@) {
            Some(string) => {
                &&& r is Ok
                &&& final(ctx_man).types() == old(ctx_man).types().push(
                    DataTypeView::CompositeType(base_type()),
                ).push(DataTypeView::CompositeType(result_type(string)))
                &&& forall|name: Seq<char>|
                    #[trigger] final(ctx_man).type_id_of(name) == if name == "Result"@ {
                        Some((old(ctx_man).types().len() + 1) as usize)
                    } else if name == "Base"@ {
                        Some(old(ctx_man).types().len() as usize)
                    } else {
                        old(ctx_man).type_id_of(name)
                    }
            },
            None => {
                &&& r matches Err(e) && e@ == string_missing()
                &&& final(ctx_man).types() == old(ctx_man).types().push(
                    DataTypeView::CompositeType(base_type()),
                )
            },
        },
{
    proof {
        reveal_strlit("String");
        reveal_strlit("Base");
        reveal_strlit("Result");
        assert("String"@ != "Base"@) by {
            assert("String"@.len() == 6);
            assert("Base"@.len() == 4);
        }
        assert("Result"@ != "Base"@) by {
            assert("Result"@.len() == 6);
            assert("Base"@.len() == 4);
        }
    }
    match crate::types::base::add_base(ctx_man) {
        Ok(_) => {},
        Err(e) => {
            return Err(e);
        },
    }
    let ghost between = ctx_man.types();
    assert(between.len() == old(ctx_man).types().len() + 1);
    match crate::types::result::add_result(ctx_man) {
        Ok(_) => {},
        Err(e) => {
            return Err(e);
        },
    }
    Ok(())
}

} // verus!
