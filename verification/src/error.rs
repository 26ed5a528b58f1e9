use vstd::prelude::*;

verus! {

/// Errors reported while deserializing a value.
#[derive(Debug, Clone)]
pub enum Error {
    /// A number does not fit in the requested integer type.
    OutOfBounds,
    /// A number cannot be converted to the requested type (a float into an integer).
    UnsupportedConversion,
    /// A required field of a structure was not present.
    MissingField,
    /// The input held a value of the wrong shape.
    InvalidValue(String),
    /// Any other error, carried as a message.
    Custom(String),
}

/// The mathematical model of an [`Error`]: messages are taken by their characters.
pub enum ErrorView {
    OutOfBounds,
    UnsupportedConversion,
    MissingField,
    InvalidValue(Seq<char>),
    Custom(Seq<char>),
}

impl View for Error {
    type V = ErrorView;

    open spec fn view(&self) -> ErrorView {
        match self {
            Error::OutOfBounds => ErrorView::OutOfBounds,
            Error::UnsupportedConversion => ErrorView::UnsupportedConversion,
            Error::MissingField => ErrorView::MissingField,
            Error::InvalidValue(m) => ErrorView::InvalidValue(m@),
            Error::Custom(m) => ErrorView::Custom(m@),
        }
    }
}

impl Error {
    /// An invalid-value error with the given message.
    pub fn invalid_value(msg: String) -> (e: Error)
        ensures
            e@ == ErrorView::InvalidValue(msg@),
    {
        Error::InvalidValue(msg)
    }

    /// An invalid-value error whose message is a fixed text.
    pub fn invalid_value_static(msg: &str) -> (e: Error)
        ensures
            e@ == ErrorView::InvalidValue(msg@),
    {
        Error::InvalidValue(msg.to_owned())
    }

    /// A custom error with the given message.
    pub fn custom(msg: String) -> (e: Error)
        ensures
            e@ == ErrorView::Custom(msg@),
    {
        Error::Custom(msg)
    }
}

} // verus!
