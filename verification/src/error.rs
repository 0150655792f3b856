//! What can go wrong.

use vstd::prelude::*;

verus! {

/// An error, with the text that describes it.
#[derive(Debug, PartialEq, Eq)]
pub enum Error {
    /// The database reported an error.
    Db(String),
    /// A request failed.
    Http(String),
    /// An address does not parse.
    Url(String),
    /// A file or a directory is not accessible.
    Io(String),
    /// Anything else.
    Other(String),
}

/// The message of an error: its description behind a prefix that names
/// its kind.
pub open spec fn error_message(e: Error) -> Seq<char> {
    match e {
        Error::Db(text) => "database error: "@ + text@,
        Error::Http(text) => "http error: "@ + text@,
        Error::Url(text) => "invalid url: "@ + text@,
        Error::Io(text) => "io error: "@ + text@,
        Error::Other(text) => text@,
    }
}

impl Error {
    /// The message that describes the error.
    pub fn to_string(&self) -> (r: String)
        ensures
            r@ == error_message(*self),
    {
        match self {
            Error::Db(text) => prefixed("database error: ", text),
            Error::Http(text) => prefixed("http error: ", text),
            Error::Url(text) => prefixed("invalid url: ", text),
            Error::Io(text) => prefixed("io error: ", text),
            Error::Other(text) => text.clone(),
        }
    }
}

fn prefixed(prefix: &str, text: &String) -> (r: String)
    ensures
        r@ == prefix@ + text@,
{
    let mut r = prefix.to_owned();
    r.append(text.as_str());
    r
}

/// Law: the message of an error is its description behind the name of its
/// kind; an error of no kind has no name in front.
pub proof fn law_error_messages(text: String)
    ensures
        error_message(Error::Db(text)) == "database error: "@ + text@,
        error_message(Error::Http(text)) == "http error: "@ + text@,
        error_message(Error::Url(text)) == "invalid url: "@ + text@,
        error_message(Error::Io(text)) == "io error: "@ + text@,
        error_message(Error::Other(text)) == text@,
{
}

} // verus!
