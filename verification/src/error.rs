//! What reading a file of a project can fail with.

use vstd::prelude::*;

verus! {

/// A failure to read a file. `P` is the type of paths and `E` that of I/O errors.
#[derive(Debug)]
pub enum Error<P, E> {
    Io(P, E),
    Parse(P, String),
}

/// A failure as its path and its cause.
pub open spec fn message_of(error: Error<String, String>) -> Seq<char> {
    match error {
        Error::Io(path, cause) => "I/O error at "@ + path@ + ": "@ + cause@,
        Error::Parse(path, complaint) => "failed to parse "@ + path@ + ": "@ + complaint@,
    }
}

impl Error<String, String> {
    /// The failure in words.
    pub fn message(&self) -> (r: String)
        ensures
            r@ == message_of(*self),
    {
        match self {
            Error::Io(path, cause) => {
                let mut m = "I/O error at ".to_string();
                m.append(path.as_str());
                m.append(": ");
                m.append(cause.as_str());
                m
            },
            Error::Parse(path, complaint) => {
                let mut m = "failed to parse ".to_string();
                m.append(path.as_str());
                m.append(": ");
                m.append(complaint.as_str());
                m
            },
        }
    }
}

/// A failure is told by what failed, at which path, and why.
pub proof fn law_message_tells_path_and_cause(path: String, cause: String)
    ensures
        message_of(Error::Io(path, cause)) == "I/O error at "@ + path@ + ": "@ + cause@,
        message_of(Error::Parse(path, cause)) == "failed to parse "@ + path@ + ": "@ + cause@,
{
}

} // verus!
