//! Error values of the subject layer, carrying the offending subject text.

use vstd::prelude::*;

verus! {

/// A validation error for a raw subject.
#[derive(Debug, PartialEq)]
pub enum Error {
    /// a single token, or the whole subject, is empty; holds the subject
    EmptyToken(String),
    /// a token follows the multi-level wildcard; holds the subject
    TokenAfterMwc(String),
}

impl Error {
    /// The error's description.
    pub fn message(&self) -> (r: String)
        ensures
            self matches Error::EmptyToken(s) ==> r@ == s@ + " has empty token"@,
            self matches Error::TokenAfterMwc(s) ==> r@ == s@
                + " has token after multi-layer wildcard token"@,
    {
        match self {
            Error::EmptyToken(s) => {
                let mut m = s.clone();
                m.append(" has empty token");
                m
            },
            Error::TokenAfterMwc(s) => {
                let mut m = s.clone();
                m.append(" has token after multi-layer wildcard token");
                m
            },
        }
    }
}

} // verus!
