//! What can go wrong while a hash tree is computed.
use vstd::prelude::*;

verus! {

/// A schema that could not be read, with the text of the reason.
#[derive(Debug)]
pub struct SchemaError {
    pub reason: String,
}

/// An error of this library.
#[derive(Debug)]
pub enum Error {
    /// An argument names nothing that exists.
    InvalidParam { reason: String },
    /// A timestamp could not be turned into a time range.
    Transform { reason: String },
    /// A schema could not be read.
    Schema { source: SchemaError },
    /// The blocks of a time series family could not be read.
    CommonError { reason: String },
}

/// An error with its text as a sequence of characters.
pub enum ErrorView {
    InvalidParam { reason: Seq<char> },
    Transform { reason: Seq<char> },
    Schema { reason: Seq<char> },
    CommonError { reason: Seq<char> },
}

impl View for Error {
    type V = ErrorView;

    open spec fn view(&self) -> ErrorView {
        match *self {
            Error::InvalidParam { reason } => ErrorView::InvalidParam { reason: reason@ },
            Error::Transform { reason } => ErrorView::Transform { reason: reason@ },
            Error::Schema { source } => ErrorView::Schema { reason: source.reason@ },
            Error::CommonError { reason } => ErrorView::CommonError { reason: reason@ },
        }
    }
}

/// An error shows its kind and all of its text.
pub proof fn law_error_view(error: Error)
    ensures
        match error {
            Error::InvalidParam { reason } => error@ == (ErrorView::InvalidParam {
                reason: reason@,
            }),
            Error::Transform { reason } => error@ == (ErrorView::Transform { reason: reason@ }),
            Error::Schema { source } => error@ == (ErrorView::Schema { reason: source.reason@ }),
            Error::CommonError { reason } => error@ == (ErrorView::CommonError { reason: reason@ }),
        },
{
}

} // verus!
