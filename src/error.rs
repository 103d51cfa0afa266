use vstd::prelude::*;

verus! {

/// The two kinds of failure of the queue and its stores.
///
/// `Empty` marks a lookup that found nothing where absence is a legitimate
/// outcome (a key never written); `Standard` is every other failure.
#[derive(Debug, Clone, PartialEq)]
pub enum Error {
    Standard { message: String },
    Empty { message: String },
}

impl Error {
    /// A `Standard` error carrying `message`.
    pub fn new(message: String) -> (r: Error)
        ensures
            r matches Error::Standard { message: m } && m@ == message@,
    {
        Error::Standard { message }
    }

    /// The message carried by either kind of error.
    pub fn into_string(self) -> (r: String)
        ensures
            r@ == self.message(),
    {
        match self {
            Error::Standard { message } => message,
            Error::Empty { message } => message,
        }
    }

    /// The message carried by either kind of error.
    pub fn as_ref(&self) -> (r: &str)
        ensures
            r@ == self.message(),
    {
        match self {
            Error::Standard { message } => message.as_str(),
            Error::Empty { message } => message.as_str(),
        }
    }

    pub open spec fn message(&self) -> Seq<char> {
        match self {
            Error::Standard { message } => message@,
            Error::Empty { message } => message@,
        }
    }

    pub open spec fn is_empty_kind(&self) -> bool {
        self matches Error::Empty { .. }
    }
}

/// The error of a lookup that found no value under the key.
pub fn no_element() -> (r: Error)
    ensures
        r.is_empty_kind(),
{
    Error::Empty { message: String::from_str("No element present") }
}

} // verus!
