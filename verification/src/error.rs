//! The ways in which the library's functions fail.

use vstd::prelude::*;

verus! {

#[derive(Clone, Copy, Debug, PartialEq, Eq, Structural)]
pub enum ZoneError {
    /// A slope was asked for between two zones of one column.
    DivisionUndefined,
    /// A record lacks a field, or holds one that is not a number.
    ParseError,
}

} // verus!
