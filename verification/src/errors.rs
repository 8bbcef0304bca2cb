//! Build-time errors of the rule compiler.
//!
//! Classification itself never raises an error: every runtime
//! "cannot determine" condition degrades to a negative result.  Only
//! compiling a signature database can fail, and each failure names its
//! cause here.

use vstd::prelude::*;

verus! {

/// Why compiling a signature database was refused.
#[derive(Debug, PartialEq, Eq, Structural, Clone, Copy)]
pub enum BuildError {
    /// A value literal (hex string or escaped string) does not parse.
    BadValue,
    /// An integer literal does not parse or overflows 32 bits.
    BadInt,
    /// An offset is neither a number nor a `start:end` range.
    BadOffset,
    /// A match element combines attributes in an unsupported way, or
    /// names an unknown match type.
    UnhandledMatch,
    /// Two definitions share a mime identifier or a derived short
    /// identifier.
    DuplicateType,
    /// The subclass declarations close a cycle.
    CyclicHierarchy,
}

impl BuildError {
    /// A short diagnostic for the error.
    pub open spec fn spec_message(self) -> Seq<char> {
        match self {
            BuildError::BadValue => "unparseable value literal"@,
            BuildError::BadInt => "unparseable integer literal"@,
            BuildError::BadOffset => "unparseable offset"@,
            BuildError::UnhandledMatch => "unsupported match element"@,
            BuildError::DuplicateType => "duplicate mime type definition"@,
            BuildError::CyclicHierarchy => "cyclic subclass hierarchy"@,
        }
    }

    /// Returns the diagnostic text.
    pub fn message(&self) -> (r: &'static str)
        ensures
            r@ == self.spec_message(),
    {
        match self {
            BuildError::BadValue => "unparseable value literal",
            BuildError::BadInt => "unparseable integer literal",
            BuildError::BadOffset => "unparseable offset",
            BuildError::UnhandledMatch => "unsupported match element",
            BuildError::DuplicateType => "duplicate mime type definition",
            BuildError::CyclicHierarchy => "cyclic subclass hierarchy",
        }
    }
}

} // verus!
