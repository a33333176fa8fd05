use vstd::prelude::*;

verus! {

/// Why a decode was refused.
#[derive(Debug, Clone, Copy, PartialEq, Eq, Structural)]
pub enum DnsError {
    /// A header must be exactly twelve bytes long.
    HeaderLength,
    /// A type field holds a value that names no record type.
    UnknownType,
    /// A class field holds a value that names no class.
    UnknownClass,
    /// The buffer ends before the item being read.
    Truncated,
    /// A compression pointer does not point strictly before the name that holds it.
    BadPointer,
}

} // verus!
