//! What can go wrong in matching.
use vstd::prelude::*;

verus! {

#[derive(Debug, PartialEq, Eq)]
pub enum ExpandError {
    UnexpectedToken,
    BindingError(String),
    ConversionError,
}

/// The model of an [`ExpandError`].
pub enum ErrorView {
    UnexpectedToken,
    BindingError(Seq<char>),
    ConversionError,
}

impl View for ExpandError {
    type V = ErrorView;

    open spec fn view(&self) -> ErrorView {
        match self {
            ExpandError::UnexpectedToken => ErrorView::UnexpectedToken,
            ExpandError::BindingError(text) => ErrorView::BindingError(text@),
            ExpandError::ConversionError => ErrorView::ConversionError,
        }
    }
}

impl Clone for ExpandError {
    fn clone(&self) -> (r: Self)
        ensures
            r@ == self@,
    {
        match self {
            ExpandError::UnexpectedToken => ExpandError::UnexpectedToken,
            ExpandError::BindingError(text) => ExpandError::BindingError(text.clone()),
            ExpandError::ConversionError => ExpandError::ConversionError,
        }
    }
}

/// The model of an optional error.
pub open spec fn error_view(err: Option<ExpandError>) -> Option<ErrorView> {
    match err {
        Some(e) => Some(e@),
        None => None,
    }
}

/// A binding error with a fixed text.
pub fn binding_error(text: &str) -> (r: ExpandError)
    ensures
        r@ == ErrorView::BindingError(text@),
{
    ExpandError::BindingError(text.to_owned())
}

/// A binding error that quotes a piece of text.
pub fn quoting_error(before: &str, quoted: &str, after: &str) -> (r: ExpandError)
    ensures
        r@ == ErrorView::BindingError(before@ + quoted@ + after@),
{
    let mut text: String = before.to_owned();
    text.append(quoted);
    text.append(after);
    ExpandError::BindingError(text)
}

/// A value together with the error, if any, that came up in computing it.
#[derive(Debug, PartialEq, Eq)]
pub struct ExpandResult<T> {
    pub value: T,
    pub err: Option<ExpandError>,
}

} // verus!
