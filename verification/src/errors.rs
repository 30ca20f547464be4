//! The errors that the library reports.

use vstd::prelude::*;
use vstd::std_specs::convert::FromSpecImpl;
use vstd::string::StringExecFns;

verus! {

/// What the operator typed, or a configuration file, could not be read.
#[derive(Debug)]
pub struct InvalidInputError {}

/// The deck is empty.
#[derive(Debug)]
pub struct NoMoreCards {}

/// A saved game could not be decoded.
#[derive(Debug)]
pub struct LoadingError {}

/// Bytes that were to be text are not valid UTF-8.
#[derive(Debug)]
pub struct BytesToStringError {}

/// A message could not be sent, received or understood.
#[derive(Debug)]
pub struct StreamError {
    message: String,
}

impl View for StreamError {
    type V = Seq<char>;

    closed spec fn view(&self) -> Seq<char> {
        self.message@
    }
}

impl StreamError {
    /// An error with the given description.
    pub fn new(message: String) -> (res: StreamError)
        ensures
            res@ == message@,
    {
        StreamError { message }
    }

    /// The description of the error.
    pub fn message(&self) -> (res: String)
        ensures
            res@ == self@,
    {
        self.message.clone()
    }

    /// The error as it is shown: its description behind `StreamError: `.
    pub fn to_string(&self) -> (res: String)
        ensures
            res@ == "StreamError: "@ + self@,
    {
        String::from_str("StreamError: ").concat(self.message.as_str())
    }
}

/// The error for bytes that were to be text and are none.
impl From<BytesToStringError> for StreamError {
    fn from(_error: BytesToStringError) -> (res: StreamError)
        ensures
            res@ == "Could not convert the byte sequence to a string"@,
    {
        StreamError {
            message: String::from_str("Could not convert the byte sequence to a string"),
        }
    }
}

impl FromSpecImpl<BytesToStringError> for StreamError {
    open spec fn obeys_from_spec() -> bool {
        false
    }

    open spec fn from_spec(error: BytesToStringError) -> StreamError {
        choose|res: StreamError|
            (#[trigger] res.view()) == "Could not convert the byte sequence to a string"@
    }
}

} // verus!
