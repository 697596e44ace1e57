//! The error of the shared types.

use vstd::prelude::*;

verus! {

/// Errors produced while parsing or manipulating shared types.
#[derive(Debug, Clone, PartialEq, Eq)]
pub enum Error {
    /// A textual value (a position, an identifier, a frame) was malformed.
    Parse(String),
}

impl Error {
    /// What went wrong.
    pub open spec fn reason(self) -> Seq<char> {
        match self {
            Error::Parse(m) => m@,
        }
    }

    /// Build an [`Error::Parse`] from its reason.
    pub fn parse(msg: String) -> (e: Error)
        ensures
            e == Error::Parse(msg),
            e.reason() == msg@,
    {
        Error::Parse(msg)
    }

    /// The error as a sentence.
    pub fn to_string(&self) -> (r: String)
        ensures
            r@ == "parse error: "@ + self.reason(),
    {
        let mut out = String::new();
        out.push_str("parse error: ");
        match self {
            Error::Parse(m) => {
                out.push_str(m.as_str());
            },
        }
        assert(out@ =~= "parse error: "@ + self.reason());
        out
    }
}

} // verus!
