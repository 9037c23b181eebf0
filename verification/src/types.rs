//! The typed values that arguments are read as, and the ways in which
//! reading them fails.

use vstd::prelude::*;

verus! {

/// A signed fixed-point number, held as its raw 32-bit representation.
#[derive(Clone, Copy, Debug, PartialEq, Eq, Structural)]
pub struct Fixed(pub i32);

/// The description of an object that is created without its interface being
/// known beforehand.
#[derive(Clone, Debug, PartialEq, Eq)]
pub struct NewId {
    /// The name of the interface that the new object implements.
    pub interface: String,
    /// The version of that interface.
    pub version: u32,
    /// The id given to the new object.
    pub id: u32,
}

/// Why a typed value could not be taken from a message's arguments.
#[derive(Debug, PartialEq, Eq)]
pub enum DispatchError {
    /// The arguments ended before the named one.
    ExpectedArgument(&'static str),
    /// An argument that has to be text is not UTF-8. The second field says
    /// which argument.
    Utf8Error(core::str::Utf8Error, &'static str),
    /// The named kind of argument does not travel in a message's words.
    Unsupported(&'static str),
}

} // verus!
