use vstd::prelude::*;

verus! {

/// Failures of the bookkeeping of names and types.
#[derive(Debug, Clone, PartialEq, Eq)]
pub enum Error {
    ContextManagerInvalidContextID(usize),
    ContextManagerInvalidDataTypeID(usize),
    ContextManagerMissingRequiredDataTypeID(String),
    DataTypeCannotExtendPrimitiveType { data_type: String, extends: String },
    DatatypeConflictingFieldDefinitions {
        data_type: String,
        field_type_a: String,
        field_type_b: String,
    },
}

/// The mathematical content of an [`Error`].
pub enum ErrorView {
    ContextManagerInvalidContextID(usize),
    ContextManagerInvalidDataTypeID(usize),
    ContextManagerMissingRequiredDataTypeID(Seq<char>),
    DataTypeCannotExtendPrimitiveType { data_type: Seq<char>, extends: Seq<char> },
    DatatypeConflictingFieldDefinitions {
        data_type: Seq<char>,
        field_type_a: Seq<char>,
        field_type_b: Seq<char>,
    },
}

impl View for Error {
    type V = ErrorView;

    open spec fn view(&self) -> ErrorView {
        match self {
            Error::ContextManagerInvalidContextID(id) => ErrorView::ContextManagerInvalidContextID(
                *id,
            ),
            Error::ContextManagerInvalidDataTypeID(
                id,
            ) => ErrorView::ContextManagerInvalidDataTypeID(*id),
            Error::ContextManagerMissingRequiredDataTypeID(
                name,
            ) => ErrorView::ContextManagerMissingRequiredDataTypeID(name@),
            Error::DataTypeCannotExtendPrimitiveType {
                data_type,
                extends,
            } => ErrorView::DataTypeCannotExtendPrimitiveType {
                data_type: data_type@,
                extends: extends@,
            },
            Error::DatatypeConflictingFieldDefinitions {
                data_type,
                field_type_a,
                field_type_b,
            } => ErrorView::DatatypeConflictingFieldDefinitions {
                data_type: data_type@,
                field_type_a: field_type_a@,
                field_type_b: field_type_b@,
            },
        }
    }
}

} // verus!
