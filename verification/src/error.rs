//! The closed error taxonomy of the engine and its bus wire form.
//!
//! Transient per-frame conditions (`NoFace`, `TooDark`) are recovered inside
//! the session retry loop; `MultipleFaces`, `Timeout` and `Other` terminate a
//! session and cross the bus verbatim as the strings below.
use vstd::prelude::*;
use crate::text::str_eq;

verus! {

#[derive(Debug, Clone, PartialEq, Eq)]
pub enum Error {
    /// Deadline exceeded with no match.
    Timeout,
    /// No enrollments exist; a session never starts capturing.
    NoData,
    /// No face was locatable (single-shot encode paths).
    NoFace,
    /// More than one face in a frame; fatal to the current session.
    MultipleFaces,
    /// Frame too dark (single-shot paths; absorbed inside the retry loop).
    TooDark,
    /// Reserved for per-user enrollment scoping.
    UnknownUser,
    /// Any lower-level failure, carrying a free-text cause.
    Other(String),
}

/// Outcome of one authentication attempt as sent over the bus.
#[derive(Debug, Clone, PartialEq, Eq)]
pub enum DbusResult {
    Success,
    Error(Error),
}

impl DbusResult {
    /// The wire string for this result.
    pub open spec fn code_spec(&self) -> Seq<char> {
        match self {
            DbusResult::Success => "Success"@,
            DbusResult::Error(e) => match e {
                Error::Timeout => "Timeout"@,
                Error::NoData => "NoData"@,
                Error::NoFace => "NoFace"@,
                Error::MultipleFaces => "MultipleFaces"@,
                Error::TooDark => "TooDark"@,
                Error::UnknownUser => "UnknownUser"@,
                Error::Other(m) => m@,
            },
        }
    }

    /// Serialize the result to its wire string.
    pub fn code(&self) -> (r: String)
        ensures
            r@ == self.code_spec(),
    {
        match self {
            DbusResult::Success => String::from_str("Success"),
            DbusResult::Error(e) => match e {
                Error::Timeout => String::from_str("Timeout"),
                Error::NoData => String::from_str("NoData"),
                Error::NoFace => String::from_str("NoFace"),
                Error::MultipleFaces => String::from_str("MultipleFaces"),
                Error::TooDark => String::from_str("TooDark"),
                Error::UnknownUser => String::from_str("UnknownUser"),
                Error::Other(m) => m.clone(),
            },
        }
    }

    /// Wire strings that decode to a closed-taxonomy result rather than to
    /// free text.
    pub open spec fn is_reserved_code(s: Seq<char>) -> bool {
        ||| s == "Success"@
        ||| s == "Timeout"@
        ||| s == "NoData"@
        ||| s == "NoFace"@
        ||| s == "MultipleFaces"@
        ||| s == "TooDark"@
        ||| s == "UnknownUser"@
    }

    /// Parse a wire string back into a result: each closed code maps to its
    /// variant, and any other string becomes free-text `Other`.
    pub fn from_code(s: &str) -> (r: DbusResult)
        ensures
            s@ == "Success"@ ==> r == DbusResult::Success,
            s@ == "Timeout"@ ==> r == DbusResult::Error(Error::Timeout),
            s@ == "NoData"@ ==> r == DbusResult::Error(Error::NoData),
            s@ == "NoFace"@ ==> r == DbusResult::Error(Error::NoFace),
            s@ == "MultipleFaces"@ ==> r == DbusResult::Error(Error::MultipleFaces),
            s@ == "TooDark"@ ==> r == DbusResult::Error(Error::TooDark),
            s@ == "UnknownUser"@ ==> r == DbusResult::Error(Error::UnknownUser),
            !DbusResult::is_reserved_code(s@) ==> (r matches DbusResult::Error(Error::Other(m))
                && m@ == s@),
    {
        proof {
            reveal_strlit("Success");
            reveal_strlit("Timeout");
            reveal_strlit("NoData");
            reveal_strlit("NoFace");
            reveal_strlit("MultipleFaces");
            reveal_strlit("TooDark");
            reveal_strlit("UnknownUser");
            assert("Success"@.len() == 7 && "Timeout"@.len() == 7 && "NoData"@.len() == 6
                && "NoFace"@.len() == 6 && "MultipleFaces"@.len() == 13 && "TooDark"@.len() == 7
                && "UnknownUser"@.len() == 11);
            assert("Success"@[0] == 'S' && "Timeout"@[0] == 'T' && "TooDark"@[1] == 'o'
                && "Timeout"@[1] == 'i');
            assert("NoData"@[2] == 'D' && "NoFace"@[2] == 'F');
        }
        if str_eq(s, "Success") {
            DbusResult::Success
        } else if str_eq(s, "Timeout") {
            DbusResult::Error(Error::Timeout)
        } else if str_eq(s, "NoFace") {
            DbusResult::Error(Error::NoFace)
        } else if str_eq(s, "NoData") {
            DbusResult::Error(Error::NoData)
        } else if str_eq(s, "MultipleFaces") {
            DbusResult::Error(Error::MultipleFaces)
        } else if str_eq(s, "TooDark") {
            DbusResult::Error(Error::TooDark)
        } else if str_eq(s, "UnknownUser") {
            DbusResult::Error(Error::UnknownUser)
        } else {
            DbusResult::Error(Error::Other(s.to_owned()))
        }
    }

    /// Whether the authentication shim should grant on this result: exactly
    /// `Success` grants, every other value denies.
    pub fn grants(&self) -> (r: bool)
        ensures
            r <==> (self matches DbusResult::Success),
    {
        match self {
            DbusResult::Success => true,
            DbusResult::Error(_) => false,
        }
    }
}

} // verus!
